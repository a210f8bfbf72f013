//! The human-readable rendering of a node: its identity, then each outgoing
//! edge as its weight and its target's identity, in list order.
use crate::graph::Graph;
use vstd::prelude::*;
use vstd::string::StringExecFns;

verus! {

/// The character of the decimal digit `d`.
pub open spec fn digit_char(d: nat) -> char {
    if d == 0 {
        '0'
    } else if d == 1 {
        '1'
    } else if d == 2 {
        '2'
    } else if d == 3 {
        '3'
    } else if d == 4 {
        '4'
    } else if d == 5 {
        '5'
    } else if d == 6 {
        '6'
    } else if d == 7 {
        '7'
    } else if d == 8 {
        '8'
    } else {
        '9'
    }
}

/// `n` written in decimal, without leading zeros.
pub open spec fn decimal(n: nat) -> Seq<char>
    decreases n,
{
    if n < 10 {
        seq![digit_char(n)]
    } else {
        decimal(n / 10) + seq![digit_char(n % 10)]
    }
}

/// How edge `h` is shown: `(Weight: w to Node: id)`.
pub open spec fn edge_text(g: Graph, h: usize) -> Seq<char> {
    "(Weight: "@ + decimal(g.edges@[h as int].weight as nat) + " to Node: "@ + decimal(
        g.nodes@[g.target_of(h)].id as nat,
    ) + ")"@
}

/// The edges `hs` shown one after another.
pub open spec fn edges_text(g: Graph, hs: Seq<usize>) -> Seq<char>
    decreases hs.len(),
{
    if hs.len() == 0 {
        Seq::empty()
    } else {
        edges_text(g, hs.drop_last()) + edge_text(g, hs.last())
    }
}

/// How node `v` is shown: `Node: id, Connections:[` its edges `]`.
pub open spec fn node_text(g: Graph, v: int) -> Seq<char> {
    "Node: "@ + decimal(g.nodes@[v].id as nat) + ", Connections:["@ + edges_text(g, g.out(v)) + "]"@
}

fn digit_str(d: usize) -> (r: &'static str)
    requires
        d < 10,
    ensures
        r@ == seq![digit_char(d as nat)],
{
    proof {
        reveal_strlit("0");
        reveal_strlit("1");
        reveal_strlit("2");
        reveal_strlit("3");
        reveal_strlit("4");
        reveal_strlit("5");
        reveal_strlit("6");
        reveal_strlit("7");
        reveal_strlit("8");
        reveal_strlit("9");
    }
    if d == 0 {
        "0"
    } else if d == 1 {
        "1"
    } else if d == 2 {
        "2"
    } else if d == 3 {
        "3"
    } else if d == 4 {
        "4"
    } else if d == 5 {
        "5"
    } else if d == 6 {
        "6"
    } else if d == 7 {
        "7"
    } else if d == 8 {
        "8"
    } else {
        "9"
    }
}

/// Appends `n` in decimal to `out`.
pub fn push_decimal(out: &mut String, n: usize)
    ensures
        final(out)@ == old(out)@ + decimal(n as nat),
    decreases n,
{
    if n >= 10 {
        push_decimal(out, n / 10);
    }
    out.append(digit_str(n % 10));
    proof {
        if n >= 10 {
            assert(final(out)@ =~= old(out)@ + decimal(n as nat));
        } else {
            assert(n % 10 == n);
        }
    }
}

impl Graph {
    /// Renders node `v`: its identity and each of its edges, as weight and
    /// target identity, in the order of its list.
    pub fn node_to_string(&self, v: usize) -> (r: String)
        requires
            self.wf(),
            v < self.node_count(),
        ensures
            r@ == node_text(*self, v as int),
    {
        let mut out = String::new();
        proof {
            reveal_strlit("Node: ");
            reveal_strlit(", Connections:[");
            reveal_strlit("(Weight: ");
            reveal_strlit(" to Node: ");
            reveal_strlit(")");
            reveal_strlit("]");
        }
        out.append("Node: ");
        push_decimal(&mut out, self.nodes[v].id);
        out.append(", Connections:[");
        let ghost head = out@;
        let mut k: usize = 0;
        while k < self.nodes[v].value.edges.len()
            invariant
                self.wf(),
                (v as int) < self.node_count(),
                0 <= k <= self.out(v as int).len(),
                out@ == head + edges_text(*self, self.out(v as int).take(k as int)),
            decreases self.out(v as int).len() - k,
        {
            let h = self.nodes[v].value.edges[k];
            proof {
                assert(self.out(v as int)[k as int] == h);
            }
            let e = self.edges[h];
            out.append("(Weight: ");
            push_decimal(&mut out, e.weight);
            out.append(" to Node: ");
            push_decimal(&mut out, self.nodes[e.node].id);
            out.append(")");
            proof {
                let hs = self.out(v as int).take(k + 1);
                assert(hs.drop_last() =~= self.out(v as int).take(k as int));
                assert(out@ =~= head + edges_text(*self, hs));
            }
            k = k + 1;
        }
        proof {
            assert(self.out(v as int).take(k as int) =~= self.out(v as int));
        }
        out.append("]");
        proof {
            assert(out@ =~= node_text(*self, v as int));
        }
        out
    }
}

} // verus!
