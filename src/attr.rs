use vstd::prelude::*;
use crate::text::{push_tabs, tabs};

verus! {

/// An attribute of a graph, node, or edge.
#[derive(Debug)]
pub struct Attr {
    key: String,
    value: String,
    is_html: bool,
}

/// What an attribute holds.
pub struct AttrView {
    pub key: Seq<char>,
    pub value: Seq<char>,
    pub is_html: bool,
}

impl View for Attr {
    type V = AttrView;

    closed spec fn view(&self) -> AttrView {
        AttrView { key: self.key@, value: self.value@, is_html: self.is_html }
    }
}

/// One attribute as a DOT line, indented by `indent + 1` tabs.
pub open spec fn attr_text(a: AttrView, indent: nat) -> Seq<char> {
    let body = if a.is_html {
        seq!['=', '<'] + a.value + seq!['>', '\n']
    } else {
        seq!['=', '"'] + a.value + seq!['"', '\n']
    };
    tabs(indent + 1) + a.key + body
}

/// A list of attributes as DOT lines, in order.
pub open spec fn attrs_text(s: Seq<AttrView>, indent: nat) -> Seq<char>
    decreases s.len(),
{
    if s.len() == 0 {
        Seq::empty()
    } else {
        attrs_text(s.drop_last(), indent) + attr_text(s.last(), indent)
    }
}

/// Whether some attribute of `s` has key `k`.
pub open spec fn has_key(s: Seq<AttrView>, k: Seq<char>) -> bool {
    exists|i: int| 0 <= i < s.len() && (#[trigger] s[i]).key == k
}

/// `s` with every attribute whose key occurred earlier removed.
pub open spec fn first_by_key(s: Seq<AttrView>) -> Seq<AttrView>
    decreases s.len(),
{
    if s.len() == 0 {
        Seq::empty()
    } else {
        let d = first_by_key(s.drop_last());
        if has_key(d, s.last().key) {
            d
        } else {
            d.push(s.last())
        }
    }
}

/// No two attributes of `s` share a key: `s` is a map from key to value.
pub open spec fn unique_keys(s: Seq<AttrView>) -> bool {
    forall|i: int, j: int| 0 <= i < s.len() && 0 <= j < s.len() && i != j ==> (#[trigger] s[i]).key != (#[trigger] s[j]).key
}

/// Keeping the first attribute of each key leaves the keys unique.
pub proof fn lemma_first_by_key_unique(s: Seq<AttrView>)
    ensures
        unique_keys(first_by_key(s)),
    decreases s.len(),
{
    if s.len() > 0 {
        let t = s.drop_last();
        lemma_first_by_key_unique(t);
        let d = first_by_key(t);
        if !has_key(d, s.last().key) {
            let r = d.push(s.last());
            assert forall|i: int, j: int| 0 <= i < r.len() && 0 <= j < r.len() && i != j implies (#[trigger] r[i]).key != (#[trigger] r[j]).key by {
                if i < d.len() && j < d.len() {
                    assert(r[i] == d[i] && r[j] == d[j]);
                } else if i < d.len() {
                    assert(r[i] == d[i]);
                } else if j < d.len() {
                    assert(r[j] == d[j]);
                }
            }
        }
    }
}

/// The views of a list of attributes.
pub open spec fn attrs_view(v: Seq<Attr>) -> Seq<AttrView> {
    v.map_values(|a: Attr| a@)
}

impl Clone for Attr {
    fn clone(&self) -> (r: Attr)
        ensures
            r@ == self@,
    {
        Attr { key: self.key.clone(), value: self.value.clone(), is_html: self.is_html }
    }
}

/// Copies a list of attributes.
pub fn clone_attrs(v: &Vec<Attr>) -> (r: Vec<Attr>)
    ensures
        attrs_view(r@) == attrs_view(v@),
{
    let mut r: Vec<Attr> = Vec::new();
    let mut i: usize = 0;
    while i < v.len()
        invariant
            i <= v.len(),
            attrs_view(r@) == attrs_view(v@.take(i as int)),
        decreases v.len() - i,
    {
        let a = v[i].clone();
        let ghost before = r@;
        r.push(a);
        proof {
            assert(v@.take(i + 1) == v@.take(i as int).push(v@[i as int]));
            assert(attrs_view(r@) =~= attrs_view(before).push(a@));
            assert(attrs_view(r@) =~= attrs_view(v@.take(i + 1)));
        }
        i = i + 1;
    }
    proof {
        assert(v@.take(v.len() as int) == v@);
    }
    r
}

/// Keeps the first attribute of each key, in order.
pub fn dedup_by_key(v: Vec<Attr>) -> (r: Vec<Attr>)
    ensures
        attrs_view(r@) == first_by_key(attrs_view(v@)),
{
    let mut r: Vec<Attr> = Vec::new();
    let mut i: usize = 0;
    while i < v.len()
        invariant
            i <= v.len(),
            attrs_view(r@) == first_by_key(attrs_view(v@.take(i as int))),
        decreases v.len() - i,
    {
        let mut seen = false;
        let mut j: usize = 0;
        while j < r.len()
            invariant
                j <= r.len(),
                i < v.len(),
                seen == (exists|k: int| 0 <= k < j && (#[trigger] r@[k])@.key == v@[i as int]@.key),
            decreases r.len() - j,
        {
            if r[j].key == v[i].key {
                seen = true;
            }
            j = j + 1;
        }
        proof {
            let s = attrs_view(v@.take(i + 1));
            assert(s.drop_last() =~= attrs_view(v@.take(i as int)));
            assert(s.last() == v@[i as int]@);
            let d = attrs_view(r@);
            if seen {
                let k = choose|k: int| 0 <= k < r.len() && (#[trigger] r@[k])@.key == v@[i as int]@.key;
                assert(d[k].key == v@[i as int]@.key);
                assert(has_key(d, s.last().key));
            } else {
                assert forall|k: int| 0 <= k < d.len() implies (#[trigger] d[k]).key != s.last().key by {
                    assert(r@[k]@.key == d[k].key);
                }
                assert(!has_key(d, s.last().key));
            }
        }
        if !seen {
            let ghost before = r@;
            r.push(v[i].clone());
            proof {
                assert(attrs_view(r@) =~= attrs_view(before).push(v@[i as int]@));
            }
        }
        i = i + 1;
    }
    proof {
        assert(v@.take(v.len() as int) == v@);
    }
    r
}

impl Attr {
    /// A new attribute.
    pub fn new(key: String, value: String, is_html: bool) -> (r: Attr)
        ensures
            r@ == (AttrView { key: key@, value: value@, is_html }),
    {
        Attr { key, value, is_html }
    }

    pub fn key(&self) -> (r: &String)
        ensures
            r@ == self@.key,
    {
        &self.key
    }

    pub fn value(&self) -> (r: &String)
        ensures
            r@ == self@.value,
    {
        &self.value
    }

    pub fn is_html(&self) -> (r: bool)
        ensures
            r == self@.is_html,
    {
        self.is_html
    }

    /// Appends this attribute as a DOT line to `out`, one tab deeper where
    /// `deeper`.
    fn write_line(&self, indent: usize, deeper: bool, out: &mut String)
        ensures
            final(out)@ == old(out)@ + attr_text(self@, indent as nat + if deeper { 1nat } else { 0nat }),
    {
        let ghost lead = indent as nat + if deeper { 1nat } else { 0nat };
        push_tabs(out, indent);
        out.append("\t");
        if deeper {
            out.append("\t");
        }
        proof {
            reveal_strlit("\t");
            assert(tabs(indent as nat + 1) == tabs(indent as nat).push('\t'));
            assert(tabs(indent as nat + 2) == tabs(indent as nat + 1).push('\t'));
            assert(out@ =~= old(out)@ + tabs(lead + 1));
        }
        let ghost mid = out@;
        out.append(self.key.as_str());
        proof {
            reveal_strlit("=<");
            reveal_strlit(">\n");
            reveal_strlit("=\"");
            reveal_strlit("\"\n");
        }
        if self.is_html {
            out.append("=<");
            out.append(self.value.as_str());
            out.append(">\n");
        } else {
            out.append("=\"");
            out.append(self.value.as_str());
            out.append("\"\n");
        }
        proof {
            let a = self@;
            let body = if a.is_html {
                seq!['=', '<'] + a.value + seq!['>', '\n']
            } else {
                seq!['=', '"'] + a.value + seq!['"', '\n']
            };
            assert(out@ =~= mid + a.key + body);
            assert(out@ =~= old(out)@ + (tabs(lead + 1) + a.key + body));
        }
    }

    /// Appends this attribute as a DOT line to `out`.
    pub fn write_dot(&self, indent: usize, out: &mut String)
        ensures
            final(out)@ == old(out)@ + attr_text(self@, indent as nat),
    {
        self.write_line(indent, false, out);
    }

    /// This attribute as a DOT line, indented by `indent + 1` tabs.
    pub fn to_dot(&self, indent: usize) -> (r: String)
        ensures
            r@ == attr_text(self@, indent as nat),
    {
        let mut out = String::new();
        self.write_dot(indent, &mut out);
        proof {
            assert(out@ =~= attr_text(self@, indent as nat));
        }
        out
    }
}

} // verus!

verus! {

/// Appends the attributes, one DOT line each, to `out`, one tab deeper
/// where `deeper`.
pub fn write_attrs(v: &Vec<Attr>, indent: usize, deeper: bool, out: &mut String)
    ensures
        final(out)@ == old(out)@ + attrs_text(attrs_view(v@), indent as nat + if deeper { 1nat } else { 0nat }),
{
    let ghost lead = indent as nat + if deeper { 1nat } else { 0nat };
    let mut i: usize = 0;
    while i < v.len()
        invariant
            i <= v.len(),
            lead == indent as nat + if deeper { 1nat } else { 0nat },
            out@ == old(out)@ + attrs_text(attrs_view(v@.take(i as int)), lead),
        decreases v.len() - i,
    {
        v[i].write_line(indent, deeper, out);
        proof {
            let s = attrs_view(v@.take(i + 1));
            assert(s.drop_last() =~= attrs_view(v@.take(i as int)));
            assert(s.last() == v@[i as int]@);
            assert(out@ =~= old(out)@ + attrs_text(s, lead));
        }
        i = i + 1;
    }
    proof {
        assert(v@.take(v.len() as int) == v@);
    }
}

} // verus!
