//! What the drawing of a leaf node shows.
use crate::arena::{ArenaModel, LeafPtr};
use crate::leaf::Entry;
use crate::leafnode::model::NodeModel;
use crate::leafnode::print::{cell, cells, drawing, leaf_drawing, leaf_drawings, row, rows, Chunk};
use vstd::prelude::*;

verus! {

/// The table of a leaf has a row for each slot that was written, in their order: row `i` shows the
/// rank `i`, the key and the value of slot `i`, in red exactly if its entry was removed.
pub proof fn law_rows<'a, K, V>(s: Seq<Entry<K, V>>, n: int, i: int)
    requires
        0 <= i < n <= s.len(),
    ensures
        rows::<K, V>(s, n).len() == 9 * n,
        rows::<'a, K, V>(s, n).subrange(9 * i, 9 * i + 9) == seq![
            Chunk::Text("<tr><td><font color=\""),
            Chunk::Text(
                if s[i].removed {
                    "red"
                } else {
                    "black"
                },
            ),
            Chunk::Text("\">"),
            Chunk::Number(i as usize),
            Chunk::Text("</font></td><td>"),
            Chunk::Key(&s[i].key),
            Chunk::Text("</td><td>"),
            Chunk::Value(&s[i].value),
            Chunk::Text("</td></tr>\n"),
        ],
    decreases n,
{
    lemma_rows_len(s, n - 1);
    let part = rows::<'a, K, V>(s, n).subrange(9 * i, 9 * i + 9);
    if i < n - 1 {
        law_rows::<K, V>(s, n - 1, i);
        assert(part =~= rows::<'a, K, V>(s, n - 1).subrange(9 * i, 9 * i + 9));
    } else {
        assert(part =~= row::<'a, K, V>(i, s[i]));
    }
}

/// The table of a leaf has nine pieces per row.
pub proof fn lemma_rows_len<K, V>(s: Seq<Entry<K, V>>, n: int)
    requires
        0 <= n <= s.len(),
    ensures
        rows::<K, V>(s, n).len() == 9 * n,
    decreases n,
{
    if n > 0 {
        lemma_rows_len(s, n - 1);
    }
}

/// The label of a node has a cell for each slot of the array of leaves, in their order: cell `i`
/// has the port `i` and shows the bound in slot `i`, in red exactly if it was removed.
pub proof fn law_cells<'a, K, V>(s: Seq<Entry<K, LeafPtr>>, n: int, i: int)
    requires
        0 <= i < n <= s.len(),
    ensures
        cells::<K, V>(s, n).len() == 7 * n,
        cells::<'a, K, V>(s, n).subrange(7 * i, 7 * i + 7) == seq![
            Chunk::<'a, K, V>::Text("<td port='p_"),
            Chunk::Number(i as usize),
            Chunk::Text("'><font color='"),
            Chunk::Text(
                if s[i].removed {
                    "red"
                } else {
                    "black"
                },
            ),
            Chunk::Text("'>"),
            Chunk::Key(&s[i].key),
            Chunk::Text("</font></td>"),
        ],
    decreases n,
{
    lemma_cells_len::<K, V>(s, n - 1);
    let part = cells::<'a, K, V>(s, n).subrange(7 * i, 7 * i + 7);
    if i < n - 1 {
        law_cells::<K, V>(s, n - 1, i);
        assert(part =~= cells::<'a, K, V>(s, n - 1).subrange(7 * i, 7 * i + 7));
    } else {
        assert(part =~= cell::<'a, K, V>(i, s[i].removed, Some(s[i].key)));
    }
}

/// The label of a node has seven pieces per cell.
pub proof fn lemma_cells_len<K, V>(s: Seq<Entry<K, LeafPtr>>, n: int)
    requires
        0 <= n <= s.len(),
    ensures
        cells::<K, V>(s, n).len() == 7 * n,
    decreases n,
{
    if n > 0 {
        lemma_cells_len::<K, V>(s, n - 1);
    }
}

/// The drawing of a leaf starts with an edge from its cell of the node, and has a table of all of
/// its slots and an edge to each neighbour that it has, the one before it first.
pub proof fn law_leaf_drawing<'a, K, V>(a: ArenaModel<K, V>, id: usize, i: int, leaf: usize)
    ensures
        leaf_drawing::<'a, K, V>(a, id, i, leaf) == seq![
            Chunk::Number(id),
            Chunk::Text(":p_"),
            Chunk::Number(i as usize),
            Chunk::Text(" -> "),
            Chunk::Number(leaf),
            Chunk::Text("\n"),
            Chunk::Number(leaf),
            Chunk::Text(
                " [shape=plaintext\nlabel=<\n<table border='1' cellborder='1'>\n\
                    <tr><td colspan='3'>ID: ",
            ),
            Chunk::Number(leaf),
            Chunk::Text("</td></tr>¬<tr><td>Rank</td><td>Key</td><td>Value</td></tr>\n"),
        ] + rows(a.entries(leaf), a.entries(leaf).len() as int) + seq![
            Chunk::Text("</table>\n>]\n"),
        ] + (match a.cells[leaf].backward {
            LeafPtr::At(q) => seq![
                Chunk::Number(leaf),
                Chunk::Text(" -> "),
                Chunk::Number(q),
                Chunk::Text("\n"),
            ],
            LeafPtr::Null => Seq::empty(),
        }) + (match a.cells[leaf].forward {
            LeafPtr::At(q) => seq![
                Chunk::Number(leaf),
                Chunk::Text(" -> "),
                Chunk::Number(q),
                Chunk::Text("\n"),
            ],
            LeafPtr::Null => Seq::empty(),
        }),
{
}

/// The bounded leaves that were not removed, and no others, are drawn in their order, each with the
/// number of its cell.
pub proof fn law_leaf_drawings<'a, K, V>(
    a: ArenaModel<K, V>,
    id: usize,
    s: Seq<Entry<K, LeafPtr>>,
    n: int,
)
    requires
        0 <= n <= s.len(),
    ensures
        leaf_drawings::<'a, K, V>(a, id, s, n) == Seq::new(
            n as nat,
            |i: int|
                if s[i].removed {
                    Seq::<Chunk<'a, K, V>>::empty()
                } else {
                    leaf_drawing::<'a, K, V>(a, id, i, s[i].value->At_0)
                },
        ).flatten(),
    decreases n,
{
    let parts = |i: int|
        if s[i].removed {
            Seq::<Chunk<'a, K, V>>::empty()
        } else {
            leaf_drawing::<'a, K, V>(a, id, i, s[i].value->At_0)
        };
    let all = Seq::new(n as nat, parts);
    if n > 0 {
        let some = Seq::new((n - 1) as nat, parts);
        law_leaf_drawings::<K, V>(a, id, s, n - 1);
        some.lemma_flatten_push(parts(n - 1));
        assert(all =~= some.push(parts(n - 1)));
        assert(leaf_drawings::<'a, K, V>(a, id, s, n) =~= some.flatten() + parts(n - 1));
    } else {
        assert(all =~= Seq::empty());
    }
}

/// The drawing of a node starts with its identifier and the number of its cells, the one of the
/// unbounded leaf included whether or not there is one, and shows the cells of all slots, that of
/// the unbounded leaf last, and then the leaves that are there.
pub proof fn law_drawing<'a, K, V>(m: NodeModel<K>, a: ArenaModel<K, V>, id: usize)
    ensures
        ({
            let s = m.children;
            let n = s.len() as int;
            drawing::<'a, K, V>(m, a, id) == seq![
                Chunk::Number(id),
                Chunk::Text(
                    " [shape=plaintext\nlabel=<\n<table border='1' cellborder='1'>\n\
                        <tr><td colspan='",
                ),
                Chunk::Number((n + 1) as usize),
                Chunk::Text("'>ID: "),
                Chunk::Number(id),
                Chunk::Text(", Level: 0, Cardinality: "),
                Chunk::Number((n + 1) as usize),
                Chunk::Text("</td></tr>\n<tr>"),
            ] + cells(s, n) + (match m.unbounded {
                LeafPtr::At(_) => seq![
                    Chunk::<'a, K, V>::Text("<td port='p_"),
                    Chunk::Number(n as usize),
                    Chunk::Text("'><font color='"),
                    Chunk::Text("black"),
                    Chunk::Text("'>"),
                    Chunk::Text("∞"),
                    Chunk::Text("</font></td>"),
                ],
                LeafPtr::Null => Seq::empty(),
            }) + seq![Chunk::Text("</tr>\n</table>\n>]\n")] + leaf_drawings(a, id, s, n) + (
            match m.unbounded {
                LeafPtr::At(p) => leaf_drawing(a, id, n, p),
                LeafPtr::Null => Seq::empty(),
            })
        }),
{
}

} // verus!
