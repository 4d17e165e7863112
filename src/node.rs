use vstd::prelude::*;
use crate::attr::{lemma_first_by_key_unique, unique_keys, attrs_text, attrs_view, clone_attrs, dedup_by_key, first_by_key, write_attrs, Attr, AttrView};
use crate::text::{pretty_id, pretty_id_text, push_tabs, tabs};

verus! {

/// A node of a graph: an id and its attributes.
#[derive(Debug)]
pub struct Node {
    id: String,
    attrs: Vec<Attr>,
}

/// What a node holds.
pub struct NodeView {
    pub id: Seq<char>,
    pub attrs: Seq<AttrView>,
}

impl View for Node {
    type V = NodeView;

    closed spec fn view(&self) -> NodeView {
        NodeView { id: self.id@, attrs: attrs_view(self.attrs@) }
    }
}

/// A node as a DOT statement: its id, then its attributes in brackets.
pub open spec fn node_text(n: NodeView, indent: nat) -> Seq<char> {
    tabs(indent) + pretty_id_text(n.id) + seq![' ', '[', '\n'] + attrs_text(n.attrs, indent + 1)
        + tabs(indent) + seq![']', ';', '\n']
}

impl Clone for Node {
    fn clone(&self) -> (r: Node)
        ensures
            r@ == self@,
    {
        Node { id: self.id.clone(), attrs: clone_attrs(&self.attrs) }
    }
}

impl Node {
    /// A new node; of attributes sharing a key only the first is kept.
    pub fn new(id: String, attrs: Vec<Attr>) -> (r: Node)
        ensures
            r@ == (NodeView { id: id@, attrs: first_by_key(attrs_view(attrs@)) }),
            unique_keys(r@.attrs),
    {
        proof {
            lemma_first_by_key_unique(attrs_view(attrs@));
        }
        Node { id, attrs: dedup_by_key(attrs) }
    }

    pub fn id(&self) -> (r: &String)
        ensures
            r@ == self@.id,
    {
        &self.id
    }

    pub fn attrs(&self) -> (r: &Vec<Attr>)
        ensures
            attrs_view(r@) == self@.attrs,
    {
        &self.attrs
    }

    /// Appends this node as a DOT statement to `out`.
    pub fn write_dot(&self, indent: usize, out: &mut String)
        ensures
            final(out)@ == old(out)@ + node_text(self@, indent as nat),
    {
        push_tabs(out, indent);
        let id = pretty_id(self.id.as_str());
        out.append(id.as_str());
        out.append(" [\n");
        write_attrs(&self.attrs, indent, true, out);
        push_tabs(out, indent);
        out.append("];\n");
        proof {
            reveal_strlit(" [\n");
            reveal_strlit("];\n");
            assert(out@ =~= old(out)@ + node_text(self@, indent as nat));
        }
    }

    /// This node as a DOT statement.
    pub fn to_dot(&self, indent: usize) -> (r: String)
        ensures
            r@ == node_text(self@, indent as nat),
    {
        let mut out = String::new();
        self.write_dot(indent, &mut out);
        proof {
            assert(out@ =~= node_text(self@, indent as nat));
        }
        out
    }
}

} // verus!
