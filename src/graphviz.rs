//! Diagnostic rendering of nodes as Graphviz records.
use crate::file_store::fetch_from;
use crate::node::{Node, NodeIdent, NodeView, SearchKey};
use crate::node_store::NodeStoreError;
use vstd::prelude::*;

verus! {

/// The decimal digits of `n`.
pub open spec fn digits(n: nat) -> Seq<char>
    decreases n,
{
    if n < 10 {
        seq![digit(n)]
    } else {
        digits(n / 10).push(digit(n % 10))
    }
}

/// The character of the decimal digit `d`.
pub open spec fn digit(d: nat) -> char {
    (('0' as nat) + d) as char
}

/// The decimal representation of `x`, with a leading minus sign when it is
/// negative.
pub open spec fn decimal(x: int) -> Seq<char> {
    if x < 0 {
        seq!['-'] + digits((-x) as nat)
    } else {
        digits(x as nat)
    }
}

/// The one-character text of the decimal digit `d`.
fn digit_str(d: u64) -> (r: &'static str)
    requires
        d < 10,
    ensures
        r@ == seq![digit(d as nat)],
{
    proof {
        reveal_strlit("0");
        reveal_strlit("1");
        reveal_strlit("2");
        reveal_strlit("3");
        reveal_strlit("4");
        reveal_strlit("5");
        reveal_strlit("6");
        reveal_strlit("7");
        reveal_strlit("8");
        reveal_strlit("9");
    }
    if d == 0 {
        "0"
    } else if d == 1 {
        "1"
    } else if d == 2 {
        "2"
    } else if d == 3 {
        "3"
    } else if d == 4 {
        "4"
    } else if d == 5 {
        "5"
    } else if d == 6 {
        "6"
    } else if d == 7 {
        "7"
    } else if d == 8 {
        "8"
    } else {
        "9"
    }
}

/// Appends the decimal digits of `n` to `s`.
fn push_digits(s: &mut String, n: u64)
    ensures
        final(s)@ == old(s)@ + digits(n as nat),
    decreases n,
{
    if n >= 10 {
        push_digits(s, n / 10);
    }
    s.append(digit_str(n % 10));
    proof {
        if n >= 10 {
            assert(digits(n as nat) == digits((n / 10) as nat).push(digit((n % 10) as nat)));
            assert(final(s)@ =~= old(s)@ + digits(n as nat));
        } else {
            assert(final(s)@ =~= old(s)@ + digits(n as nat));
        }
    }
}

/// The decimal representation of `x`.
fn decimal_string(x: i64) -> (r: String)
    ensures
        r@ == decimal(x as int),
{
    let mut s = String::new();
    if x < 0 {
        proof {
            reveal_strlit("-");
        }
        s.append("-");
        let m: u64 = if x == i64::MIN {
            9223372036854775808u64
        } else {
            (-x) as u64
        };
        push_digits(&mut s, m);
        assert(s@ =~= decimal(x as int));
    } else {
        push_digits(&mut s, x as u64);
        assert(s@ =~= decimal(x as int));
    }
    s
}

/// The separator cells of an inner node's record, for separators `0..i`.
pub open spec fn inner_cells(keys: Seq<SearchKey>, i: int) -> Seq<char>
    decreases i,
{
    if i <= 0 {
        Seq::empty()
    } else {
        inner_cells(keys, i - 1) + "| "@ + decimal(keys[i - 1] as int) + " | <sep"@ + decimal(i)
            + "> "@
    }
}

/// The edges from an inner node to its children `0..i`.
pub open spec fn inner_edges(id: NodeIdent, vals: Seq<NodeIdent>, i: int) -> Seq<char>
    decreases i,
{
    if i <= 0 {
        Seq::empty()
    } else {
        inner_edges(id, vals, i - 1) + "\n"@ + decimal(id as int) + ":sep"@ + decimal(i - 1)
            + " -> "@ + decimal(vals[i - 1] as int) + ";"@
    }
}

/// The key cells of a leaf's record, for keys `0..i`, separated by bars.
pub open spec fn leaf_cells(keys: Seq<SearchKey>, i: int) -> Seq<char>
    decreases i,
{
    if i <= 0 {
        Seq::empty()
    } else {
        leaf_cells(keys, i - 1) + (if i > 1 {
            " | "@
        } else {
            Seq::empty()
        }) + "{ "@ + decimal(keys[i - 1] as int) + " }"@
    }
}

/// The rendering of node `n` under identifier `id`: a record of its
/// separators with one edge per child for an inner node, a record of its
/// keys for a leaf.
pub open spec fn graphviz_of(keys: Seq<SearchKey>, vals: Seq<NodeIdent>, size: int, id: NodeIdent) -> Seq<char> {
    if id < 0 {
        decimal(id as int) + " [shape=record,label=\"<sep0> "@ + inner_cells(keys, size) + "\"];"@
            + inner_edges(id, vals, size + 1)
    } else {
        decimal(id as int) + " [shape=record, label=\""@ + leaf_cells(keys, size) + "\"];"@
    }
}

/// `body` put in front of what `r` renders, or the error `r` holds.
pub open spec fn prepend(body: Seq<char>, r: Result<Seq<char>, NodeStoreError>) -> Result<
    Seq<char>,
    NodeStoreError,
> {
    match r {
        Ok(rest) => Ok(body + rest),
        Err(e) => Err(e),
    }
}

/// The records of the nodes visited breadth first: `queue[head..]` waits to
/// be visited, each visited inner node appends its live children to the
/// queue, and at most `limit` nodes are visited in all. Each record is
/// followed by a line break. The first node that cannot be read ends the walk
/// with its error.
pub open spec fn render_walk(
    nodes: Map<int, NodeView>,
    fanout: nat,
    queue: Seq<NodeIdent>,
    head: int,
    limit: int,
) -> Result<Seq<char>, NodeStoreError>
    decreases limit - head,
{
    if head < 0 || head >= queue.len() || head >= limit {
        Ok(Seq::empty())
    } else {
        match fetch_from(nodes, fanout, queue[head]) {
            Err(e) => Err(e),
            Ok(n) => {
                let id = queue[head];
                let next = if id < 0 {
                    queue + n.vals.take(n.size as int + 1)
                } else {
                    queue
                };
                prepend(
                    graphviz_of(n.keys, n.vals, n.size as int, id) + "\n"@,
                    render_walk(nodes, fanout, next, head + 1, limit),
                )
            },
        }
    }
}

/// The digraph of the tree rooted at `root`: a header, the records of the
/// nodes reached breadth first (at most `limit` of them), and a closing brace.
pub open spec fn graphviz_text(
    nodes: Map<int, NodeView>,
    fanout: nat,
    root: NodeIdent,
    limit: int,
) -> Result<Seq<char>, NodeStoreError> {
    match render_walk(nodes, fanout, seq![root], 0, limit) {
        Ok(body) => Ok("digraph G {\n"@ + body + "}"@),
        Err(e) => Err(e),
    }
}

impl Node {
    /// Renders the node under `node_id` as a Graphviz record; the sign of
    /// the identifier tells an inner node from a leaf.
    pub fn to_graphviz(&self, node_id: &NodeIdent) -> (r: String)
        requires
            self.size <= self.separators@.len(),
            *node_id < 0 ==> self.size < self.children@.len(),
            12 * self.separators@.len() <= crate::codec::BLOCK_SIZE,
        ensures
            r@ == graphviz_of(self.separators@, self.children@, self.size as int, *node_id),
    {
        let id = *node_id;
        let mut result = decimal_string(id as i64);
        if id < 0 {
            result.append(" [shape=record,label=\"<sep0> ");
            let ghost head = result@;
            let mut i: usize = 0;
            while i < self.size
                invariant
                    i <= self.size <= self.separators@.len(),
                    12 * self.separators@.len() <= crate::codec::BLOCK_SIZE,
                    result@ == head + inner_cells(self.separators@, i as int),
                decreases self.size - i,
            {
                result.append("| ");
                let k = decimal_string(self.separators[i]);
                result.append(k.as_str());
                result.append(" | <sep");
                let n = decimal_string((i + 1) as i64);
                result.append(n.as_str());
                result.append("> ");
                i = i + 1;
                assert(result@ =~= head + inner_cells(self.separators@, i as int));
            }
            result.append("\"];");
            let ghost mid = result@;
            let mut i: usize = 0;
            while i <= self.size
                invariant
                    i <= self.size + 1,
                    self.size < self.children@.len(),
                    self.size <= self.separators@.len(),
                    12 * self.separators@.len() <= crate::codec::BLOCK_SIZE,
                    id < 0,
                    result@ == mid + inner_edges(id, self.children@, i as int),
                decreases self.size + 1 - i,
            {
                result.append("\n");
                let a = decimal_string(id as i64);
                result.append(a.as_str());
                result.append(":sep");
                let b = decimal_string(i as i64);
                result.append(b.as_str());
                result.append(" -> ");
                let c = decimal_string(self.children[i] as i64);
                result.append(c.as_str());
                result.append(";");
                i = i + 1;
                assert(result@ =~= mid + inner_edges(id, self.children@, i as int));
            }
            result
        } else {
            result.append(" [shape=record, label=\"");
            let ghost head = result@;
            let mut i: usize = 0;
            while i < self.size
                invariant
                    i <= self.size <= self.separators@.len(),
                    result@ == head + leaf_cells(self.separators@, i as int),
                decreases self.size - i,
            {
                if i > 0 {
                    result.append(" | ");
                }
                result.append("{ ");
                let k = decimal_string(self.separators[i]);
                result.append(k.as_str());
                result.append(" }");
                i = i + 1;
                assert(result@ =~= head + leaf_cells(self.separators@, i as int));
            }
            result.append("\"];");
            result
        }
    }
}

} // verus!
