use scc::leafnode::print::Chunk;
use scc::{LeafArena, LeafNode};

fn render(node: &LeafNode<u64>, arena: &LeafArena<u64, u64>) -> String {
    let mut text = String::new();
    for chunk in node.print(arena) {
        match chunk {
            Chunk::Text(t) => text.push_str(t),
            Chunk::Number(n) => text.push_str(&n.to_string()),
            Chunk::Key(k) => text.push_str(&k.to_string()),
            Chunk::Value(v) => text.push_str(&v.to_string()),
        }
    }
    text
}

#[test]
fn node_without_leaves_is_drawn() {
    let mut arena = LeafArena::new();
    let node = LeafNode::new(false, &mut arena);
    assert_eq!(
        render(&node, &arena),
        "0 [shape=plaintext\nlabel=<\n<table border='1' cellborder='1'>\n\
         <tr><td colspan='1'>ID: 0, Level: 0, Cardinality: 1</td></tr>\n<tr></tr>\n</table>\n>]\n"
    );
}

#[test]
fn leaf_is_drawn_with_removed_entries() {
    let mut arena = LeafArena::new();
    let mut node = LeafNode::new(true, &mut arena);
    node.insert(1, 10, &mut arena).unwrap();
    node.insert(2, 20, &mut arena).unwrap();
    node.remove(&1, &mut arena).unwrap();
    assert_eq!(
        render(&node, &arena),
        "0 [shape=plaintext\nlabel=<\n<table border='1' cellborder='1'>\n\
         <tr><td colspan='1'>ID: 0, Level: 0, Cardinality: 1</td></tr>\n\
         <tr><td port='p_0'><font color='black'>∞</font></td></tr>\n</table>\n>]\n\
         0:p_0 -> 1\n\
         1 [shape=plaintext\nlabel=<\n<table border='1' cellborder='1'>\n\
         <tr><td colspan='3'>ID: 1</td></tr>¬<tr><td>Rank</td><td>Key</td><td>Value</td></tr>\n\
         <tr><td><font color=\"red\">0</font></td><td>1</td><td>10</td></tr>\n\
         <tr><td><font color=\"black\">1</font></td><td>2</td><td>20</td></tr>\n\
         </table>\n>]\n"
    );
}

#[test]
fn bounds_and_links_are_drawn() {
    let mut arena = LeafArena::new();
    let mut node = LeafNode::new(true, &mut arena);
    for key in 0..19 {
        node.insert(key, 10 * key, &mut arena).unwrap();
    }
    for key in 0..6 {
        node.remove(&key, &mut arena).unwrap();
    }
    let text = render(&node, &arena);
    assert!(text.starts_with(
        "0 [shape=plaintext\nlabel=<\n<table border='1' cellborder='1'>\n\
         <tr><td colspan='3'>ID: 0, Level: 0, Cardinality: 3</td></tr>\n\
         <tr><td port='p_0'><font color='red'>5</font></td>\
         <td port='p_1'><font color='black'>11</font></td>\
         <td port='p_2'><font color='black'>∞</font></td></tr>\n</table>\n>]\n\
         0:p_1 -> 4\n4 [shape=plaintext\n"
    ));
    assert!(text.contains(
        "<tr><td><font color=\"black\">5</font></td><td>11</td><td>110</td></tr>\n\
         </table>\n>]\n4 -> 5\n0:p_2 -> 5\n5 [shape=plaintext\n"
    ));
    assert!(text.ends_with("</table>\n>]\n5 -> 4\n"));
}
