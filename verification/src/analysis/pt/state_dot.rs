//! The DOT text of a state graph.
use vstd::prelude::*;

use crate::text::{decimal, push_char, push_decimal, push_str, string_of};

use super::reachability::{StateEdge, StateGraph, StateNode, StatePlaceSnapshot, TransitionSummary};

verus! {

/// `s` with backslashes and quotes preceded by a backslash.
pub open spec fn label_escaped(s: Seq<char>) -> Seq<char>
    decreases s.len(),
{
    if s.len() == 0 {
        Seq::empty()
    } else {
        let c = s.last();
        label_escaped(s.drop_last()) + if c == '\\' {
            seq!['\\', '\\']
        } else if c == '"' {
            seq!['\\', '"']
        } else {
            seq![c]
        }
    }
}

/// `s` with quotes preceded by a backslash.
pub open spec fn quote_escaped(s: Seq<char>) -> Seq<char>
    decreases s.len(),
{
    if s.len() == 0 {
        Seq::empty()
    } else {
        let c = s.last();
        quote_escaped(s.drop_last()) + if c == '"' {
            seq!['\\', '"']
        } else {
            seq![c]
        }
    }
}

/// `parts` separated by `, `.
pub open spec fn comma_joined(parts: Seq<Seq<char>>) -> Seq<char>
    decreases parts.len(),
{
    if parts.len() == 0 {
        Seq::empty()
    } else if parts.len() == 1 {
        parts[0]
    } else {
        comma_joined(parts.drop_last()) + seq![',', ' '] + parts.last()
    }
}

/// The `name:tokens` entries of the places of a state.
pub open spec fn place_entries(places: Seq<StatePlaceSnapshot>) -> Seq<Seq<char>> {
    Seq::new(places.len(), |i: int| places[i].name@ + seq![':'] + decimal(places[i].tokens as nat))
}

/// The names of the enabled transitions of a state.
pub open spec fn enabled_names(enabled: Seq<TransitionSummary>) -> Seq<Seq<char>> {
    Seq::new(enabled.len(), |i: int| enabled[i].name@)
}

/// The label of a state: `s<index>`, then `\n` and `marking: ` with its
/// place entries, then, when some transition is enabled, `\n` and
/// `enabled: ` with their names (`\n` standing for a backslash and an `n`).
pub open spec fn node_label(n: StateNode) -> Seq<char> {
    seq!['s'] + decimal(n.index as nat) + seq!['\\', 'n'] + "marking: "@ + comma_joined(place_entries(n.places@))
        + if n.enabled@.len() == 0 {
        Seq::empty()
    } else {
        seq!['\\', 'n'] + "enabled: "@ + comma_joined(enabled_names(n.enabled@))
    }
}

/// The DOT line of a state.
pub open spec fn node_line(n: StateNode) -> Seq<char> {
    "  s"@ + decimal(n.index as nat) + " [label=\""@ + label_escaped(node_label(n)) + "\"];\n"@
}

/// The DOT line of an edge.
pub open spec fn edge_line(e: (usize, usize, StateEdge)) -> Seq<char> {
    "  s"@ + decimal(e.0 as nat) + " -> s"@ + decimal(e.1 as nat) + " [label=\""@ + quote_escaped(
        e.2.transition.name@,
    ) + "\"];\n"@
}

/// The lines of the first `k` states.
pub open spec fn node_lines(ns: Seq<StateNode>, k: nat) -> Seq<char>
    decreases k,
{
    if k == 0 {
        Seq::empty()
    } else {
        node_lines(ns, (k - 1) as nat) + node_line(ns[k - 1])
    }
}

/// The lines of the first `k` edges.
pub open spec fn edge_lines(es: Seq<(usize, usize, StateEdge)>, k: nat) -> Seq<char>
    decreases k,
{
    if k == 0 {
        Seq::empty()
    } else {
        edge_lines(es, (k - 1) as nat) + edge_line(es[k - 1])
    }
}

/// The DOT text of a state graph: its header, a line per state, a line per
/// edge, and the closing brace.
pub open spec fn graph_dot(g: StateGraph) -> Seq<char> {
    "digraph StateGraph {\n  rankdir=LR;\n"@ + node_lines(g.states@, g.states@.len()) + edge_lines(
        g.edges@,
        g.edges@.len(),
    ) + "}\n"@
}

/// Appends `s`, backslashes and quotes escaped, to `out`.
fn push_label_escaped(out: &mut String, s: &str)
    ensures
        final(out)@ == old(out)@ + label_escaped(s@),
{
    let n = s.unicode_len();
    let ghost o0 = out@;
    let mut i: usize = 0;
    while i < n
        invariant
            i <= n,
            n == s@.len(),
            out@ == o0 + label_escaped(s@.take(i as int)),
        decreases n - i,
    {
        let c = s.get_char(i);
        assert(s@.take(i + 1).drop_last() == s@.take(i as int));
        if c == '\\' {
            push_char(out, '\\');
            push_char(out, '\\');
        } else if c == '"' {
            push_char(out, '\\');
            push_char(out, '"');
        } else {
            push_char(out, c);
        }
        i = i + 1;
    }
    assert(s@.take(n as int) == s@);
}

/// Appends `s`, quotes escaped, to `out`.
fn push_quote_escaped(out: &mut String, s: &str)
    ensures
        final(out)@ == old(out)@ + quote_escaped(s@),
{
    let n = s.unicode_len();
    let ghost o0 = out@;
    let mut i: usize = 0;
    while i < n
        invariant
            i <= n,
            n == s@.len(),
            out@ == o0 + quote_escaped(s@.take(i as int)),
        decreases n - i,
    {
        let c = s.get_char(i);
        assert(s@.take(i + 1).drop_last() == s@.take(i as int));
        if c == '"' {
            push_char(out, '\\');
            push_char(out, '"');
        } else {
            push_char(out, c);
        }
        i = i + 1;
    }
    assert(s@.take(n as int) == s@);
}

/// The label of state `n`.
/// Appends the DOT line of edge `e`.
fn push_edge_line(out: &mut String, e: &(usize, usize, StateEdge))
    ensures
        final(out)@ == old(out)@ + edge_line(*e),
{
    let ghost o = out@;
    push_str(out, "  s");
    push_decimal(out, e.0 as u64);
    push_str(out, " -> s");
    push_decimal(out, e.1 as u64);
    push_str(out, " [label=\"");
    push_quote_escaped(out, e.2.transition.name.as_str());
    push_str(out, "\"];\n");
    proof {
        assert(out@ =~= o + edge_line(*e));
    }
}

fn label_of(n: &StateNode) -> (r: String)
    ensures
        r@ == node_label(*n),
{
    let mut out = string_of("s");
    proof {
        reveal_strlit("s");
    }
    push_decimal(&mut out, n.index as u64);
    push_char(&mut out, '\\');
    push_char(&mut out, 'n');
    push_str(&mut out, "marking: ");
    let ghost head = out@;
    let ghost entries = place_entries(n.places@);
    let np = n.places.len();
    let mut i: usize = 0;
    while i < np
        invariant
            i <= np,
            np == n.places@.len(),
            entries == place_entries(n.places@),
            out@ == head + comma_joined(entries.take(i as int)),
        decreases np - i,
    {
        let ghost before = out@;
        if i > 0 {
            push_str(&mut out, ", ");
            proof {
                reveal_strlit(", ");
            }
        }
        push_str(&mut out, n.places[i].name.as_str());
        push_char(&mut out, ':');
        push_decimal(&mut out, n.places[i].tokens as u64);
        proof {
            assert(entries.take(i + 1).drop_last() == entries.take(i as int));
            assert(entries.take(i + 1).last() == entries[i as int]);
            if i == 0 {
                assert(out@ == head + entries[0]);
            }
        }
        i = i + 1;
    }
    assert(entries.take(np as int) == entries);
    let ne = n.enabled.len();
    if ne > 0 {
        push_char(&mut out, '\\');
        push_char(&mut out, 'n');
        push_str(&mut out, "enabled: ");
        let ghost head2 = out@;
        let ghost names = enabled_names(n.enabled@);
        let mut j: usize = 0;
        while j < ne
            invariant
                j <= ne,
                ne == n.enabled@.len(),
                names == enabled_names(n.enabled@),
                out@ == head2 + comma_joined(names.take(j as int)),
            decreases ne - j,
        {
            if j > 0 {
                push_str(&mut out, ", ");
                proof {
                    reveal_strlit(", ");
                }
            }
            push_str(&mut out, n.enabled[j].name.as_str());
            proof {
                assert(names.take(j + 1).drop_last() == names.take(j as int));
                assert(names.take(j + 1).last() == names[j as int]);
                if j == 0 {
                    assert(out@ == head2 + names[0]);
                }
            }
            j = j + 1;
        }
        assert(names.take(ne as int) == names);
    }
    proof {
        assert(out@ =~= node_label(*n));
    }
    out
}

impl StateGraph {
    /// The DOT text of the graph: a node per state labelled with its
    /// marking and enabled transitions, an edge per firing labelled with the
    /// transition's name.
    pub fn dot(&self) -> (r: String)
        ensures
            r@ == graph_dot(*self),
    {
        let mut out = string_of("digraph StateGraph {\n  rankdir=LR;\n");
        let ns = self.states.len();
        let mut i: usize = 0;
        while i < ns
            invariant
                i <= ns,
                ns == self.states@.len(),
                out@ == "digraph StateGraph {\n  rankdir=LR;\n"@ + node_lines(self.states@, i as nat),
            decreases ns - i,
        {
            let node = &self.states[i];
            let label = label_of(node);
            push_str(&mut out, "  s");
            push_decimal(&mut out, node.index as u64);
            push_str(&mut out, " [label=\"");
            push_label_escaped(&mut out, label.as_str());
            push_str(&mut out, "\"];\n");
            i = i + 1;
        }
        let ghost head = out@;
        let ne = self.edges.len();
        let mut k: usize = 0;
        while k < ne
            invariant
                k <= ne,
                ne == self.edges@.len(),
                out@ == head + edge_lines(self.edges@, k as nat),
            decreases ne - k,
        {
            let e = &self.edges[k];
            push_edge_line(&mut out, e);
            proof {
                assert(edge_lines(self.edges@, (k + 1) as nat) == edge_lines(self.edges@, k as nat) + edge_line(
                    *e,
                ));
                assert(out@ =~= head + edge_lines(self.edges@, (k + 1) as nat));
            }
            k = k + 1;
        }
        push_str(&mut out, "}\n");
        out
    }
}

} // verus!
