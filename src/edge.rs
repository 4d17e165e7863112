use vstd::prelude::*;
use crate::attr::{has_key, lemma_first_by_key_unique, unique_keys, attrs_text, attrs_view, clone_attrs, dedup_by_key, first_by_key, write_attrs, Attr, AttrView};
use crate::text::{pretty_id, pretty_id_text, push_tabs, tabs};

verus! {

/// The identity of an edge: its endpoints, each with an optional port.
#[derive(Debug, PartialEq, Eq)]
pub struct EdgeId {
    from: String,
    tailport: Option<String>,
    to: String,
    headport: Option<String>,
}

/// What an edge id holds.
pub struct EdgeIdView {
    pub from: Seq<char>,
    pub tailport: Option<Seq<char>>,
    pub to: Seq<char>,
    pub headport: Option<Seq<char>>,
}

/// The view of an optional text.
pub open spec fn opt_view(o: Option<String>) -> Option<Seq<char>> {
    match o {
        Some(s) => Some(s@),
        None => None,
    }
}

impl View for EdgeId {
    type V = EdgeIdView;

    closed spec fn view(&self) -> EdgeIdView {
        EdgeIdView {
            from: self.from@,
            tailport: opt_view(self.tailport),
            to: self.to@,
            headport: opt_view(self.headport),
        }
    }
}

/// A port suffix: `:port`, or nothing.
pub open spec fn port_text(p: Option<Seq<char>>) -> Seq<char> {
    match p {
        Some(s) => seq![':'] + s,
        None => Seq::empty(),
    }
}

/// An edge id as DOT text: `from[:port] -> to[:port]`.
pub open spec fn edge_id_text(e: EdgeIdView, indent: nat) -> Seq<char> {
    tabs(indent) + pretty_id_text(e.from) + port_text(e.tailport) + seq![' ', '-', '>', ' ']
        + pretty_id_text(e.to) + port_text(e.headport)
}

fn clone_opt(o: &Option<String>) -> (r: Option<String>)
    ensures
        opt_view(r) == opt_view(*o),
{
    match o {
        Some(s) => Some(s.clone()),
        None => None,
    }
}

fn same_opt(a: &Option<String>, b: &Option<String>) -> (r: bool)
    ensures
        r == (opt_view(*a) == opt_view(*b)),
{
    match (a, b) {
        (Some(x), Some(y)) => *x == *y,
        (None, None) => true,
        _ => false,
    }
}

fn write_port(p: &Option<String>, out: &mut String)
    ensures
        final(out)@ == old(out)@ + port_text(opt_view(*p)),
{
    match p {
        Some(s) => {
            out.append(":");
            out.append(s.as_str());
            proof {
                reveal_strlit(":");
                assert(out@ =~= old(out)@ + port_text(opt_view(*p)));
            }
        },
        None => {
            assert(out@ =~= old(out)@ + port_text(opt_view(*p)));
        },
    }
}

impl Clone for EdgeId {
    fn clone(&self) -> (r: EdgeId)
        ensures
            r@ == self@,
    {
        EdgeId {
            from: self.from.clone(),
            tailport: clone_opt(&self.tailport),
            to: self.to.clone(),
            headport: clone_opt(&self.headport),
        }
    }
}

impl EdgeId {
    pub fn new(from: String, tailport: Option<String>, to: String, headport: Option<String>) -> (r: EdgeId)
        ensures
            r@ == (EdgeIdView { from: from@, tailport: opt_view(tailport), to: to@, headport: opt_view(headport) }),
    {
        EdgeId { from, tailport, to, headport }
    }

    pub fn from(&self) -> (r: &String)
        ensures
            r@ == self@.from,
    {
        &self.from
    }

    pub fn tailport(&self) -> (r: &Option<String>)
        ensures
            opt_view(*r) == self@.tailport,
    {
        &self.tailport
    }

    pub fn to(&self) -> (r: &String)
        ensures
            r@ == self@.to,
    {
        &self.to
    }

    pub fn headport(&self) -> (r: &Option<String>)
        ensures
            opt_view(*r) == self@.headport,
    {
        &self.headport
    }

    /// Whether two edge ids are the same: endpoints and ports all equal.
    pub fn same(&self, other: &EdgeId) -> (r: bool)
        ensures
            r == (self@ == other@),
    {
        self.from == other.from && self.to == other.to && same_opt(&self.tailport, &other.tailport)
            && same_opt(&self.headport, &other.headport)
    }

    /// Appends this edge id as DOT text to `out`.
    pub fn write_dot(&self, indent: usize, out: &mut String)
        ensures
            final(out)@ == old(out)@ + edge_id_text(self@, indent as nat),
    {
        push_tabs(out, indent);
        let from = pretty_id(self.from.as_str());
        out.append(from.as_str());
        write_port(&self.tailport, out);
        out.append(" -> ");
        let to = pretty_id(self.to.as_str());
        out.append(to.as_str());
        write_port(&self.headport, out);
        proof {
            reveal_strlit(" -> ");
            assert(out@ =~= old(out)@ + edge_id_text(self@, indent as nat));
        }
    }

    /// This edge id as DOT text.
    pub fn to_dot(&self, indent: usize) -> (r: String)
        ensures
            r@ == edge_id_text(self@, indent as nat),
    {
        let mut out = String::new();
        self.write_dot(indent, &mut out);
        proof {
            assert(out@ =~= edge_id_text(self@, indent as nat));
        }
        out
    }
}

/// Whether a key names a port, which an edge keeps in its id.
pub open spec fn is_port_key(k: Seq<char>) -> bool {
    k == "tailport"@ || k == "headport"@
}

/// `s` without the attributes whose key names a port.
pub open spec fn without_ports(s: Seq<AttrView>) -> Seq<AttrView>
    decreases s.len(),
{
    if s.len() == 0 {
        Seq::empty()
    } else if is_port_key(s.last().key) {
        without_ports(s.drop_last())
    } else {
        without_ports(s.drop_last()).push(s.last())
    }
}

/// Dropping the port attributes keeps keys unique and leaves no port key.
proof fn lemma_without_ports(s: Seq<AttrView>)
    requires
        unique_keys(s),
    ensures
        unique_keys(without_ports(s)),
        forall|i: int| 0 <= i < without_ports(s).len() ==> !is_port_key(#[trigger] without_ports(s)[i].key),
        forall|i: int| 0 <= i < without_ports(s).len() ==> has_key(s, #[trigger] without_ports(s)[i].key),
    decreases s.len(),
{
    if s.len() > 0 {
        let t = s.drop_last();
        assert(unique_keys(t)) by {
            assert forall|i: int, j: int| 0 <= i < t.len() && 0 <= j < t.len() && i != j implies (#[trigger] t[i]).key != (#[trigger] t[j]).key by {
                assert(t[i] == s[i] && t[j] == s[j]);
            }
        }
        lemma_without_ports(t);
        let d = without_ports(t);
        assert forall|i: int| 0 <= i < d.len() implies has_key(s, #[trigger] d[i].key) by {
            assert(has_key(t, d[i].key));
            let m = choose|m: int| 0 <= m < t.len() && (#[trigger] t[m]).key == d[i].key;
            assert(s[m] == t[m]);
        }
        if !is_port_key(s.last().key) {
            let r = d.push(s.last());
            assert(!has_key(d, s.last().key)) by {
                if has_key(d, s.last().key) {
                    let i = choose|i: int| 0 <= i < d.len() && (#[trigger] d[i]).key == s.last().key;
                    assert(has_key(t, d[i].key));
                    let m = choose|m: int| 0 <= m < t.len() && (#[trigger] t[m]).key == d[i].key;
                    assert(s[m] == t[m]);
                    assert(s[m].key == s[s.len() - 1].key);
                }
            }
            assert forall|i: int, j: int| 0 <= i < r.len() && 0 <= j < r.len() && i != j implies (#[trigger] r[i]).key != (#[trigger] r[j]).key by {
                if i < d.len() && j < d.len() {
                    assert(r[i] == d[i] && r[j] == d[j]);
                } else if i < d.len() {
                    assert(r[i] == d[i]);
                } else if j < d.len() {
                    assert(r[j] == d[j]);
                }
            }
            assert forall|i: int| 0 <= i < r.len() implies has_key(s, #[trigger] r[i].key) by {
                if i < d.len() {
                    assert(r[i] == d[i]);
                } else {
                    assert(s[s.len() - 1].key == r[i].key);
                }
            }
            assert forall|i: int| 0 <= i < r.len() implies !is_port_key(#[trigger] r[i].key) by {
                if i < d.len() {
                    assert(r[i] == d[i]);
                }
            }
        }
    }
}

fn drop_ports(v: Vec<Attr>) -> (r: Vec<Attr>)
    ensures
        attrs_view(r@) == without_ports(attrs_view(v@)),
{
    let tail = String::from_str("tailport");
    let head = String::from_str("headport");
    let mut r: Vec<Attr> = Vec::new();
    let mut i: usize = 0;
    while i < v.len()
        invariant
            i <= v.len(),
            tail@ == "tailport"@,
            head@ == "headport"@,
            attrs_view(r@) == without_ports(attrs_view(v@.take(i as int))),
        decreases v.len() - i,
    {
        proof {
            let s = attrs_view(v@.take(i + 1));
            assert(s.drop_last() =~= attrs_view(v@.take(i as int)));
            assert(s.last() == v@[i as int]@);
        }
        if !(*v[i].key() == tail || *v[i].key() == head) {
            let a = v[i].clone();
            let ghost before = r@;
            r.push(a);
            proof {
                assert(attrs_view(r@) =~= attrs_view(before).push(a@));
            }
        }
        i = i + 1;
    }
    proof {
        assert(v@.take(v.len() as int) == v@);
    }
    r
}

/// A directed edge of a graph: its id and its attributes.
#[derive(Debug)]
pub struct Edge {
    id: EdgeId,
    attrs: Vec<Attr>,
}

/// What an edge holds.
pub struct EdgeView {
    pub id: EdgeIdView,
    pub attrs: Seq<AttrView>,
}

impl View for Edge {
    type V = EdgeView;

    closed spec fn view(&self) -> EdgeView {
        EdgeView { id: self.id@, attrs: attrs_view(self.attrs@) }
    }
}

/// An edge as a DOT statement: its id, then its attributes in brackets.
pub open spec fn edge_text(e: EdgeView, indent: nat) -> Seq<char> {
    edge_id_text(e.id, indent) + seq![' ', '[', '\n'] + attrs_text(e.attrs, indent + 1) + tabs(indent)
        + seq![']', '\n']
}

impl Clone for Edge {
    fn clone(&self) -> (r: Edge)
        ensures
            r@ == self@,
    {
        Edge { id: self.id.clone(), attrs: clone_attrs(&self.attrs) }
    }
}

impl Edge {
    /// A new edge. Port keys are dropped from the attributes, the id holds
    /// the ports; of attributes sharing a key only the first is kept.
    pub fn new(id: EdgeId, attrs: Vec<Attr>) -> (r: Edge)
        ensures
            r@ == (EdgeView { id: id@, attrs: without_ports(first_by_key(attrs_view(attrs@))) }),
            unique_keys(r@.attrs),
            forall|i: int| 0 <= i < r@.attrs.len() ==> !is_port_key(#[trigger] r@.attrs[i].key),
    {
        proof {
            lemma_first_by_key_unique(attrs_view(attrs@));
            lemma_without_ports(first_by_key(attrs_view(attrs@)));
        }
        Edge { id, attrs: drop_ports(dedup_by_key(attrs)) }
    }

    pub fn id(&self) -> (r: &EdgeId)
        ensures
            r@ == self@.id,
    {
        &self.id
    }

    pub fn attrs(&self) -> (r: &Vec<Attr>)
        ensures
            attrs_view(r@) == self@.attrs,
    {
        &self.attrs
    }

    /// Appends this edge as a DOT statement to `out`.
    pub fn write_dot(&self, indent: usize, out: &mut String)
        ensures
            final(out)@ == old(out)@ + edge_text(self@, indent as nat),
    {
        self.id.write_dot(indent, out);
        out.append(" [\n");
        write_attrs(&self.attrs, indent, true, out);
        push_tabs(out, indent);
        out.append("]\n");
        proof {
            reveal_strlit(" [\n");
            reveal_strlit("]\n");
            assert(out@ =~= old(out)@ + edge_text(self@, indent as nat));
        }
    }

    /// This edge as a DOT statement.
    pub fn to_dot(&self, indent: usize) -> (r: String)
        ensures
            r@ == edge_text(self@, indent as nat),
    {
        let mut out = String::new();
        self.write_dot(indent, &mut out);
        proof {
            assert(out@ =~= edge_text(self@, indent as nat));
        }
        out
    }
}

} // verus!
