//! The syntax tree of the first language.
use vstd::prelude::*;
use crate::text::{decimal_text, joined, usize_text};

verus! {

broadcast use {vstd::std_specs::vec::group_vec_axioms, vstd::seq::group_seq_axioms};

/// The kind of a node; names borrow from the source text.
#[derive(Debug, Clone, Copy, PartialEq, Eq)]
pub enum NodeType<'t> {
    Root,
    Tal(usize),
    Nad(usize),
    Sequence(&'t str),
    FnCall(&'t str),
    Gap,
    Figure(usize),
}

/// What a node kind is, with names as characters.
pub enum NodeTypeV {
    Root,
    Tal(usize),
    Nad(usize),
    Sequence(Seq<char>),
    FnCall(Seq<char>),
    Gap,
    Figure(usize),
}

impl<'t> View for NodeType<'t> {
    type V = NodeTypeV;

    open spec fn view(&self) -> NodeTypeV {
        match *self {
            NodeType::Root => NodeTypeV::Root,
            NodeType::Tal(u) => NodeTypeV::Tal(u),
            NodeType::Nad(u) => NodeTypeV::Nad(u),
            NodeType::Sequence(s) => NodeTypeV::Sequence(s@),
            NodeType::FnCall(s) => NodeTypeV::FnCall(s@),
            NodeType::Gap => NodeTypeV::Gap,
            NodeType::Figure(u) => NodeTypeV::Figure(u),
        }
    }
}

/// How a node kind is written (`Display`).
pub open spec fn node_type_text(t: NodeTypeV) -> Seq<char> {
    match t {
        NodeTypeV::Root => "Root"@,
        NodeTypeV::Sequence(s) => "Sequence("@ + s + ")"@,
        NodeTypeV::Tal(u) => "Tal("@ + decimal_text(u as nat) + "a)"@,
        NodeTypeV::Nad(u) => "Nad("@ + decimal_text(u as nat) + "m)"@,
        NodeTypeV::FnCall(s) => "FnCall("@ + s + ")"@,
        NodeTypeV::Gap => "Gap"@,
        NodeTypeV::Figure(n) => "Figure("@ + decimal_text(n as nat) + ")"@,
    }
}

impl<'t> NodeType<'t> {
    /// How the node kind is written.
    pub fn to_text(&self) -> (r: String)
        ensures
            r@ == node_type_text(self@),
    {
        match self {
            NodeType::Root => String::from_str("Root"),
            NodeType::Sequence(s) => {
                let mut out = joined("Sequence(", s);
                out.append(")");
                out
            },
            NodeType::Tal(u) => {
                let mut out = joined("Tal(", usize_text(*u).as_str());
                out.append("a)");
                out
            },
            NodeType::Nad(u) => {
                let mut out = joined("Nad(", usize_text(*u).as_str());
                out.append("m)");
                out
            },
            NodeType::FnCall(s) => {
                let mut out = joined("FnCall(", s);
                out.append(")");
                out
            },
            NodeType::Gap => String::from_str("Gap"),
            NodeType::Figure(n) => {
                let mut out = joined("Figure(", usize_text(*n).as_str());
                out.append(")");
                out
            },
        }
    }
}

/// A node: its kind and, where it has them, its children.
#[derive(Debug)]
pub struct Node<'n> {
    pub node_type: NodeType<'n>,
    pub children: Option<Vec<Node<'n>>>,
}

/// What a node is.
pub struct NodeV {
    pub node_type: NodeTypeV,
    pub children: Option<Seq<NodeV>>,
}

/// The view of a node.
pub open spec fn node_view<'n>(n: Node<'n>) -> NodeV
    decreases n,
{
    NodeV {
        node_type: n.node_type@,
        children: match n.children {
            Some(v) => Some(node_views(v@)),
            None => None,
        },
    }
}

/// The views of a sequence of nodes.
pub open spec fn node_views<'n>(s: Seq<Node<'n>>) -> Seq<NodeV>
    decreases s,
{
    if s.len() == 0 {
        Seq::empty()
    } else {
        seq![node_view(s[0])] + node_views(s.drop_first())
    }
}

impl<'n> View for Node<'n> {
    type V = NodeV;

    open spec fn view(&self) -> NodeV {
        node_view(*self)
    }
}

/// The views of a sequence of nodes, element by element.
pub proof fn lemma_node_views<'n>(s: Seq<Node<'n>>)
    ensures
        node_views(s).len() == s.len(),
        forall|i: int| 0 <= i < s.len() ==> node_views(s)[i] == node_view(#[trigger] s[i]),
    decreases s.len(),
{
    if s.len() > 0 {
        lemma_node_views(s.drop_first());
        assert forall|i: int| 0 <= i < s.len() implies node_views(s)[i] == node_view(#[trigger] s[i]) by {
            if i > 0 {
                assert(s[i] == s.drop_first()[i - 1]);
            }
        }
    }
}

/// Views commute with appending one node.
pub proof fn lemma_node_views_push<'n>(s: Seq<Node<'n>>, x: Node<'n>)
    ensures
        node_views(s.push(x)) == node_views(s).push(node_view(x)),
{
    lemma_node_views(s);
    lemma_node_views(s.push(x));
    assert forall|i: int| 0 <= i < s.len() + 1 implies node_views(s.push(x))[i] == node_views(s).push(
        node_view(x),
    )[i] by {
        assert(s.push(x)[i] == if i < s.len() { s[i] } else { x });
    }
    assert(node_views(s.push(x)) =~= node_views(s).push(node_view(x)));
}

/// The children of a node as a sequence; empty where it has none.
pub open spec fn kids(n: NodeV) -> Seq<NodeV> {
    match n.children {
        Some(c) => c,
        None => Seq::empty(),
    }
}

/// The lines that draw the tree `n` under `prefix`.
pub open spec fn node_lines(n: NodeV, prefix: Seq<char>, is_last: bool) -> Seq<Seq<char>>
    decreases n, 0int,
{
    let connector = if is_last { "\\_"@ } else { "|- "@ };
    let child_prefix = prefix + if is_last { "    "@ } else { "|    "@ };
    seq![prefix + connector + node_type_text(n.node_type)] + match n.children {
        Some(c) => child_lines(c, child_prefix, 0),
        None => Seq::empty(),
    }
}

/// The lines that draw the children `cs` from `i` on under `prefix`.
pub open spec fn child_lines(cs: Seq<NodeV>, prefix: Seq<char>, i: int) -> Seq<Seq<char>>
    decreases cs, cs.len() - i,
{
    if i < 0 || i >= cs.len() {
        Seq::empty()
    } else {
        node_lines(cs[i], prefix, i == cs.len() - 1) + child_lines(cs, prefix, i + 1)
    }
}

/// Appends the lines `b` to `a`.
fn append_lines(a: &mut Vec<String>, b: Vec<String>)
    ensures
        crate::sys::ast::lines_view(final(a)@) == crate::sys::ast::lines_view(old(a)@)
            + crate::sys::ast::lines_view(b@),
{
    let ghost bv = b@;
    let mut b = b;
    a.append(&mut b);
    assert(crate::sys::ast::lines_view(a@) =~= crate::sys::ast::lines_view(old(a)@)
        + crate::sys::ast::lines_view(bv));
}

impl<'n> Node<'n> {
    /// A node of kind `node_type` with no children yet.
    pub fn new(node_type: NodeType<'n>) -> (r: Self)
        ensures
            r.node_type == node_type,
            r@ == (NodeV { node_type: node_type@, children: Some(Seq::empty()) }),
    {
        let r = Self { node_type, children: Some(Vec::new()) };
        assert(r@.children->0 =~= Seq::<NodeV>::empty());
        r
    }

    /// Appends `n` to the children, making the list where there is none; gives its index.
    pub fn insert_node(&mut self, n: Node<'n>) -> (r: usize)
        ensures
            final(self).node_type == old(self).node_type,
            final(self)@ == (NodeV { node_type: old(self)@.node_type, children: Some(kids(old(self)@).push(n@)) }),
            r == kids(old(self)@).len(),
    {
        let ghost before = match &self.children {
            Some(v) => v@,
            None => Seq::empty(),
        };
        let ghost nv = n;
        let mut ch = match self.children.take() {
            Some(v) => v,
            None => Vec::new(),
        };
        ch.push(n);
        let r = ch.len() - 1;
        self.children = Some(ch);
        proof {
            lemma_node_views(before);
            lemma_node_views_push(before, nv);
            assert(node_views(Seq::<Node<'n>>::empty()) =~= Seq::<NodeV>::empty());
        }
        r
    }

    /// The name of a sequence node.
    pub fn get_name(&self) -> (r: &'n str)
        requires
            self.node_type is Sequence,
        ensures
            self@.node_type == NodeTypeV::Sequence(r@),
    {
        match self.node_type {
            NodeType::Sequence(s) => s,
            _ => {
                proof {
                    assert(false);
                }
                unreached()
            },
        }
    }

    /// The lines that draw the tree.
    pub fn prettyprint(&self) -> (r: Vec<String>)
        ensures
            crate::sys::ast::lines_view(r@) == node_lines(self@, Seq::empty(), true),
    {
        let r = self.dfs("", true);
        proof {
            assert(""@ =~= Seq::<char>::empty()) by {
                reveal_strlit("");
            }
        }
        r
    }

    /// The lines that draw the tree under `prefix`.
    fn dfs(&self, prefix: &str, is_last: bool) -> (r: Vec<String>)
        ensures
            crate::sys::ast::lines_view(r@) == node_lines(self@, prefix@, is_last),
        decreases self,
    {
        let connector = if is_last { "\\_" } else { "|- " };
        let mut line = String::from_str(prefix);
        line.append(connector);
        line.append(self.node_type.to_text().as_str());
        let mut out: Vec<String> = Vec::new();
        out.push(line);
        let child_prefix = joined(prefix, if is_last { "    " } else { "|    " });
        assert(crate::sys::ast::lines_view(out@) =~= seq![prefix@ + (if is_last { "\\_"@ } else { "|- "@ }) + node_type_text(self@.node_type)]);
        if let Some(children) = &self.children {
            proof {
                assert(decreases_to!(self => self.children));
                assert(decreases_to!(self.children => self.children->0));
            }
            let rest = Self::dfs_children(children, child_prefix.as_str());
            append_lines(&mut out, rest);
        } else {
            assert(crate::sys::ast::lines_view(out@) =~= crate::sys::ast::lines_view(out@) + Seq::<Seq<char>>::empty());
        }
        out
    }

    /// The lines that draw the children `v` under `prefix`.
    fn dfs_children(v: &Vec<Node<'n>>, prefix: &str) -> (r: Vec<String>)
        ensures
            crate::sys::ast::lines_view(r@) == child_lines(node_views(v@), prefix@, 0),
        decreases v, 1int,
    {
        proof {
            lemma_node_views(v@);
        }
        let ghost cs = node_views(v@);
        let mut out: Vec<String> = Vec::new();
        let count = v.len();
        let mut i: usize = 0;
        while i < count
            invariant
                i <= count,
                count == v.len(),
                cs == node_views(v@),
                cs.len() == v.len(),
                forall|k: int| 0 <= k < v.len() ==> cs[k] == node_view(#[trigger] v@[k]),
                crate::sys::ast::lines_view(out@) + child_lines(cs, prefix@, i as int) == child_lines(cs, prefix@, 0),
            decreases count - i,
        {
            let child = &v[i];
            proof {
                assert(decreases_to!(v => v@[i as int]));
            }
            let is_last_child = i == count - 1;
            let sub = child.dfs(prefix, is_last_child);
            append_lines(&mut out, sub);
            i = i + 1;
        }
        assert(crate::sys::ast::lines_view(out@) + Seq::<Seq<char>>::empty() =~= crate::sys::ast::lines_view(out@));
        out
    }
}

} // verus!
