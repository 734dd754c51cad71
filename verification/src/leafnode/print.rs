//! Drawing a leaf node as a graph.
use crate::arena::{ArenaModel, LeafArena, LeafPtr};
use crate::leaf::{live_at, Entry, ARRAY_SIZE};
use crate::leafnode::model::NodeModel;
use crate::leafnode::LeafNode;
use crate::scanner::{lemma_next_slot, LeafScanner};
use vstd::prelude::*;

verus! {

/// A piece of the drawing.
#[derive(PartialEq, Eq, Debug)]
pub enum Chunk<'a, K, V> {
    Text(&'static str),
    Number(usize),
    Key(&'a K),
    Value(&'a V),
}

/// The colour of an entry.
pub open spec fn color_of(removed: bool) -> &'static str {
    if removed {
        "red"
    } else {
        "black"
    }
}

/// The head of the label of a node with `n` cells.
pub open spec fn head<'a, K, V>(id: usize, n: usize) -> Seq<Chunk<'a, K, V>> {
    seq![
        Chunk::Number(id),
        Chunk::Text(
            " [shape=plaintext\nlabel=<\n<table border='1' cellborder='1'>\n<tr><td colspan='",
        ),
        Chunk::Number(n),
        Chunk::Text("'>ID: "),
        Chunk::Number(id),
        Chunk::Text(", Level: 0, Cardinality: "),
        Chunk::Number(n),
        Chunk::Text("</td></tr>\n<tr>"),
    ]
}

/// The cell of a leaf in the label; the unbounded leaf has no key.
pub open spec fn cell<'a, K, V>(i: int, removed: bool, key: Option<K>) -> Seq<Chunk<'a, K, V>> {
    seq![
        Chunk::Text("<td port='p_"),
        Chunk::Number(i as usize),
        Chunk::Text("'><font color='"),
        Chunk::Text(color_of(removed)),
        Chunk::Text("'>"),
        match key {
            Some(k) => Chunk::Key(&k),
            None => Chunk::Text("∞"),
        },
        Chunk::Text("</font></td>"),
    ]
}

/// The cells of the leaves in the first `n` slots.
pub open spec fn cells<'a, K, V>(s: Seq<Entry<K, LeafPtr>>, n: int) -> Seq<Chunk<'a, K, V>>
    decreases n,
{
    if n <= 0 {
        Seq::empty()
    } else {
        cells(s, n - 1) + cell(n - 1, s[n - 1].removed, Some(s[n - 1].key))
    }
}

/// The edge from cell `i` of a node to a leaf, and the head of the table of the leaf.
pub open spec fn leaf_head<'a, K, V>(id: usize, i: int, leaf: usize) -> Seq<Chunk<'a, K, V>> {
    seq![
        Chunk::Number(id),
        Chunk::Text(":p_"),
        Chunk::Number(i as usize),
        Chunk::Text(" -> "),
        Chunk::Number(leaf),
        Chunk::Text("\n"),
        Chunk::Number(leaf),
        Chunk::Text(
            " [shape=plaintext\nlabel=<\n<table border='1' cellborder='1'>\n<tr><td colspan='3'>ID: ",
        ),
        Chunk::Number(leaf),
        Chunk::Text(
            "</td></tr>¬<tr><td>Rank</td><td>Key</td><td>Value</td></tr>\n",
        ),
    ]
}

/// The row of an entry.
pub open spec fn row<'a, K, V>(rank: int, e: Entry<K, V>) -> Seq<Chunk<'a, K, V>> {
    seq![
        Chunk::Text("<tr><td><font color=\""),
        Chunk::Text(color_of(e.removed)),
        Chunk::Text("\">"),
        Chunk::Number(rank as usize),
        Chunk::Text("</font></td><td>"),
        Chunk::Key(&e.key),
        Chunk::Text("</td><td>"),
        Chunk::Value(&e.value),
        Chunk::Text("</td></tr>\n"),
    ]
}

/// The rows of the first `n` entries.
pub open spec fn rows<'a, K, V>(s: Seq<Entry<K, V>>, n: int) -> Seq<Chunk<'a, K, V>>
    decreases n,
{
    if n <= 0 {
        Seq::empty()
    } else {
        rows(s, n - 1) + row(n - 1, s[n - 1])
    }
}

/// The edge from a leaf to a neighbour.
pub open spec fn link<'a, K, V>(leaf: usize, neighbour: LeafPtr) -> Seq<Chunk<'a, K, V>> {
    match neighbour {
        LeafPtr::At(p) => seq![
            Chunk::Number(leaf),
            Chunk::Text(" -> "),
            Chunk::Number(p),
            Chunk::Text("\n"),
        ],
        LeafPtr::Null => Seq::empty(),
    }
}

/// The drawing of the leaf in cell `i` of a node.
pub open spec fn leaf_drawing<'a, K, V>(a: ArenaModel<K, V>, id: usize, i: int, leaf: usize) -> Seq<
    Chunk<'a, K, V>,
> {
    leaf_head(id, i, leaf) + rows(a.entries(leaf), a.entries(leaf).len() as int) + seq![
        Chunk::Text("</table>\n>]\n"),
    ] + link(leaf, a.cells[leaf].backward) + link(leaf, a.cells[leaf].forward)
}

/// The drawings of the leaves in the first `n` slots.
pub open spec fn leaf_drawings<'a, K, V>(
    a: ArenaModel<K, V>,
    id: usize,
    s: Seq<Entry<K, LeafPtr>>,
    n: int,
) -> Seq<Chunk<'a, K, V>>
    decreases n,
{
    if n <= 0 {
        Seq::empty()
    } else if s[n - 1].removed {
        leaf_drawings(a, id, s, n - 1)
    } else {
        leaf_drawings(a, id, s, n - 1) + leaf_drawing(a, id, n - 1, s[n - 1].value->At_0)
    }
}

/// The drawing of a node: its label with a cell for each leaf, and its leaves.
pub open spec fn drawing<'a, K, V>(m: NodeModel<K>, a: ArenaModel<K, V>, id: usize) -> Seq<
    Chunk<'a, K, V>,
> {
    let s = m.children;
    let n = s.len() as int;
    head(id, (n + 1) as usize) + cells(s, n) + (match m.unbounded {
        LeafPtr::At(_) => cell(n, false, None),
        LeafPtr::Null => Seq::empty(),
    }) + seq![Chunk::Text("</tr>\n</table>\n>]\n")] + leaf_drawings(a, id, s, n) + (
    match m.unbounded {
        LeafPtr::At(p) => leaf_drawing(a, id, n, p),
        LeafPtr::Null => Seq::empty(),
    })
}

fn color(removed: bool) -> (r: &'static str)
    ensures
        r == color_of(removed),
{
    if removed {
        "red"
    } else {
        "black"
    }
}

fn print_head<'a, K, V>(out: &mut Vec<Chunk<'a, K, V>>, id: usize, n: usize)
    ensures
        final(out)@ == old(out)@ + head(id, n),
{
    out.push(Chunk::Number(id));
    out.push(
        Chunk::Text(
            " [shape=plaintext\nlabel=<\n<table border='1' cellborder='1'>\n<tr><td colspan='",
        ),
    );
    out.push(Chunk::Number(n));
    out.push(Chunk::Text("'>ID: "));
    out.push(Chunk::Number(id));
    out.push(Chunk::Text(", Level: 0, Cardinality: "));
    out.push(Chunk::Number(n));
    out.push(Chunk::Text("</td></tr>\n<tr>"));
    proof {
        assert(out@ =~= old(out)@ + head(id, n));
    }
}

fn print_cell<'a, K, V>(
    out: &mut Vec<Chunk<'a, K, V>>,
    i: usize,
    removed: bool,
    key: Option<&'a K>,
)
    ensures
        final(out)@ == old(out)@ + cell(
            i as int,
            removed,
            match key {
                Some(k) => Some(*k),
                None => None,
            },
        ),
{
    out.push(Chunk::Text("<td port='p_"));
    out.push(Chunk::Number(i));
    out.push(Chunk::Text("'><font color='"));
    out.push(Chunk::Text(color(removed)));
    out.push(Chunk::Text("'>"));
    match key {
        Some(k) => out.push(Chunk::Key(k)),
        None => out.push(Chunk::Text("∞")),
    }
    out.push(Chunk::Text("</font></td>"));
    proof {
        assert(out@ =~= old(out)@ + cell(
            i as int,
            removed,
            match key {
                Some(k) => Some(*k),
                None => None,
            },
        ));
    }
}

fn print_leaf_head<'a, K, V>(out: &mut Vec<Chunk<'a, K, V>>, id: usize, i: usize, leaf: usize)
    ensures
        final(out)@ == old(out)@ + leaf_head(id, i as int, leaf),
{
    out.push(Chunk::Number(id));
    out.push(Chunk::Text(":p_"));
    out.push(Chunk::Number(i));
    out.push(Chunk::Text(" -> "));
    out.push(Chunk::Number(leaf));
    out.push(Chunk::Text("\n"));
    out.push(Chunk::Number(leaf));
    out.push(
        Chunk::Text(
            " [shape=plaintext\nlabel=<\n<table border='1' cellborder='1'>\n<tr><td colspan='3'>ID: ",
        ),
    );
    out.push(Chunk::Number(leaf));
    out.push(
        Chunk::Text(
            "</td></tr>¬<tr><td>Rank</td><td>Key</td><td>Value</td></tr>\n",
        ),
    );
    proof {
        assert(out@ =~= old(out)@ + leaf_head(id, i as int, leaf));
    }
}

fn print_row<'a, K, V>(
    out: &mut Vec<Chunk<'a, K, V>>,
    rank: usize,
    removed: bool,
    key: &'a K,
    value: &'a V,
)
    ensures
        final(out)@ == old(out)@ + row(
            rank as int,
            Entry { key: *key, value: *value, removed },
        ),
{
    out.push(Chunk::Text("<tr><td><font color=\""));
    out.push(Chunk::Text(color(removed)));
    out.push(Chunk::Text("\">"));
    out.push(Chunk::Number(rank));
    out.push(Chunk::Text("</font></td><td>"));
    out.push(Chunk::Key(key));
    out.push(Chunk::Text("</td><td>"));
    out.push(Chunk::Value(value));
    out.push(Chunk::Text("</td></tr>\n"));
    proof {
        assert(out@ =~= old(out)@ + row(
            rank as int,
            Entry { key: *key, value: *value, removed },
        ));
    }
}

fn print_link<'a, K, V>(out: &mut Vec<Chunk<'a, K, V>>, leaf: usize, neighbour: LeafPtr)
    ensures
        final(out)@ == old(out)@ + link(leaf, neighbour),
{
    match neighbour {
        LeafPtr::At(p) => {
            out.push(Chunk::Number(leaf));
            out.push(Chunk::Text(" -> "));
            out.push(Chunk::Number(p));
            out.push(Chunk::Text("\n"));
        },
        LeafPtr::Null => {},
    }
    proof {
        assert(out@ =~= old(out)@ + link(leaf, neighbour));
    }
}

fn print_leaf<'a, K: Clone + Ord, V>(
    out: &mut Vec<Chunk<'a, K, V>>,
    id: usize,
    i: usize,
    leaf: usize,
    arena: &'a LeafArena<K, V>,
)
    requires
        arena.wf(),
        arena@.cells.dom().contains(leaf),
    ensures
        final(out)@ == old(out)@ + leaf_drawing(arena@, id, i as int, leaf),
{
    let ghost before = out@;
    print_leaf_head(out, id, i, leaf);
    let found = arena.cell(leaf);
    let ghost s = found.leaf@;
    let ghost top = out@;
    let mut scanner = LeafScanner::new_including_removed(&found.leaf);
    let mut rank: usize = 0;
    proof {
        lemma_next_slot(s, 0, true);
        assert(top + rows(s, 0) =~= top);
    }
    loop
        invariant
            s == arena@.entries(leaf),
            s.len() <= ARRAY_SIZE,
            scanner.wf(),
            scanner.entries() == s,
            scanner.includes_removed(),
            scanner.position() == rank,
            rank <= s.len(),
            out@ == top + rows(s, rank as int),
        ensures
            rank == s.len(),
        decreases s.len() - rank,
    {
        let (key, value) = match scanner.next() {
            Some(entry) => entry,
            None => {
                break ;
            },
        };
        let removed = scanner.removed();
        print_row(out, rank, removed, key, value);
        proof {
            assert(s[rank as int] == Entry { key: *key, value: *value, removed });
            assert(top + rows(s, rank + 1) =~= (top + rows(s, rank as int)) + row(
                rank as int,
                s[rank as int],
            ));
        }
        rank = rank + 1;
    }
    out.push(Chunk::Text("</table>\n>]\n"));
    print_link(out, leaf, found.backward);
    print_link(out, leaf, found.forward);
    proof {
        assert(out@ =~= before + leaf_drawing(arena@, id, i as int, leaf));
    }
}

impl<K: Clone + Ord> LeafNode<K> {
    /// Draws the node and its leaves.
    pub fn print<'a, V>(&'a self, arena: &'a LeafArena<K, V>) -> (out: Vec<Chunk<'a, K, V>>)
        requires
            arena.wf(),
            self@.wf(arena@),
            forall|i: int|
                live_at(self@.children, i) ==> (#[trigger] self@.children[i]).value is At,
        ensures
            out@ == drawing(self@, arena@, self.spec_id()),
    {
        let ghost s = self@.children;
        let id = self.id;
        let n = self.leaves.used();
        let mut out: Vec<Chunk<'a, K, V>> = Vec::new();
        print_head(&mut out, id, n + 1);
        let ghost top = head::<K, V>(id, (n + 1) as usize);
        proof {
            assert(out@ =~= top + cells(s, 0));
        }
        let mut scanner = LeafScanner::new_including_removed(&self.leaves);
        let mut index: usize = 0;
        loop
            invariant
                s.len() <= ARRAY_SIZE,
                scanner.wf(),
                scanner.entries() == s,
                scanner.includes_removed(),
                scanner.position() == index,
                index <= s.len(),
                out@ == top + cells(s, index as int),
            ensures
                index == s.len(),
            decreases s.len() - index,
        {
            let (key, _) = match scanner.next() {
                Some(entry) => entry,
                None => {
                    break ;
                },
            };
            print_cell(&mut out, index, scanner.removed(), Some(key));
            proof {
                assert(top + cells(s, index + 1) =~= (top + cells(s, index as int)) + cell(
                    index as int,
                    s[index as int].removed,
                    Some(s[index as int].key),
                ));
            }
            index = index + 1;
        }
        if !self.unbounded_leaf.is_null() {
            print_cell(&mut out, n, false, None);
        }
        out.push(Chunk::Text("</tr>\n</table>\n>]\n"));
        let ghost label = out@;
        let mut i: usize = 0;
        proof {
            assert(label =~= label + leaf_drawings(arena@, id, s, 0));
        }
        while i < n
            invariant
                s == self@.children,
                s == self.leaves@,
                n == s.len(),
                i <= n,
                arena.wf(),
                self@.wf(arena@),
                forall|j: int| live_at(s, j) ==> (#[trigger] s[j]).value is At,
                out@ == label + leaf_drawings(arena@, id, s, i as int),
            decreases n - i,
        {
            let child = self.leaves.entry(i);
            if !child.removed {
                proof {
                    assert(arena@.sound(s[i as int].value));
                }
                match child.value {
                    LeafPtr::At(p) => print_leaf(&mut out, id, i, p, arena),
                    LeafPtr::Null => {},
                }
                proof {
                    assert(out@ =~= label + leaf_drawings(arena@, id, s, i + 1));
                }
            }
            i = i + 1;
        }
        match self.unbounded_leaf {
            LeafPtr::At(p) => print_leaf(&mut out, id, n, p, arena),
            LeafPtr::Null => {},
        }
        proof {
            assert(out@ =~= drawing(self@, arena@, id));
        }
        out
    }
}

} // verus!
