//! The syntax tree of a program.
use vstd::prelude::*;
use crate::text::{decimal_text, joined, usize_text};

verus! {

broadcast use {vstd::std_specs::vec::group_vec_axioms, vstd::seq::group_seq_axioms};

/// A node of the syntax tree; names borrow from the source text.
#[derive(Debug, PartialEq, Eq)]
pub enum ASTNode<'t> {
    Root(Vec<ASTNode<'t>>),
    Tal(usize),
    Nad(usize),
    Sequence(&'t str, Vec<ASTNode<'t>>),
    FnCall(&'t str),
    Gap(Vec<ASTNode<'t>>),
    Figure(usize),
    Reload,
    Load(&'t str),
    Inspect(&'t str),
}

/// What a node is, with names as characters.
pub enum AstV {
    Root(Seq<AstV>),
    Tal(usize),
    Nad(usize),
    Sequence(Seq<char>, Seq<AstV>),
    FnCall(Seq<char>),
    Gap(Seq<AstV>),
    Figure(usize),
    Reload,
    Load(Seq<char>),
    Inspect(Seq<char>),
}

/// The view of a node.
pub open spec fn ast_view<'t>(n: ASTNode<'t>) -> AstV
    decreases n,
{
    match n {
        ASTNode::Root(v) => AstV::Root(ast_views(v@)),
        ASTNode::Tal(u) => AstV::Tal(u),
        ASTNode::Nad(u) => AstV::Nad(u),
        ASTNode::Sequence(s, v) => AstV::Sequence(s@, ast_views(v@)),
        ASTNode::FnCall(s) => AstV::FnCall(s@),
        ASTNode::Gap(v) => AstV::Gap(ast_views(v@)),
        ASTNode::Figure(u) => AstV::Figure(u),
        ASTNode::Reload => AstV::Reload,
        ASTNode::Load(s) => AstV::Load(s@),
        ASTNode::Inspect(s) => AstV::Inspect(s@),
    }
}

/// The views of a sequence of nodes.
pub open spec fn ast_views<'t>(s: Seq<ASTNode<'t>>) -> Seq<AstV>
    decreases s,
{
    if s.len() == 0 {
        Seq::empty()
    } else {
        seq![ast_view(s[0])] + ast_views(s.drop_first())
    }
}

impl<'t> View for ASTNode<'t> {
    type V = AstV;

    open spec fn view(&self) -> AstV {
        ast_view(*self)
    }
}


/// The views of a sequence of nodes, element by element.
pub broadcast proof fn lemma_ast_views<'t>(s: Seq<ASTNode<'t>>)
    ensures
        #[trigger] ast_views(s).len() == s.len(),
        forall|i: int| 0 <= i < s.len() ==> ast_views(s)[i] == ast_view(#[trigger] s[i]),
    decreases s.len(),
{
    if s.len() > 0 {
        lemma_ast_views(s.drop_first());
        assert forall|i: int| 0 <= i < s.len() implies ast_views(s)[i] == ast_view(#[trigger] s[i]) by {
            if i > 0 {
                assert(s[i] == s.drop_first()[i - 1]);
            }
        }
    }
}

/// Views commute with appending one node.
pub proof fn lemma_ast_views_push<'t>(s: Seq<ASTNode<'t>>, x: ASTNode<'t>)
    ensures
        ast_views(s.push(x)) == ast_views(s).push(ast_view(x)),
{
    lemma_ast_views(s);
    lemma_ast_views(s.push(x));
    assert forall|i: int| 0 <= i < s.len() + 1 implies ast_views(s.push(x))[i] == ast_views(s).push(
        ast_view(x),
    )[i] by {
        assert(s.push(x)[i] == if i < s.len() { s[i] } else { x });
    }
    assert(ast_views(s.push(x)) =~= ast_views(s).push(ast_view(x)));
}

impl AstV {
    /// Whether the node holds children (a root, a sequence or a gap).
    pub open spec fn has_children(self) -> bool {
        self is Root || self is Sequence || self is Gap
    }

    /// The children of a root, a sequence or a gap; empty for any other node.
    pub open spec fn children(self) -> Seq<AstV> {
        match self {
            AstV::Root(v) => v,
            AstV::Sequence(_, v) => v,
            AstV::Gap(v) => v,
            _ => Seq::empty(),
        }
    }

    /// The same root, sequence or gap with `c` as its children.
    pub open spec fn with_children(self, c: Seq<AstV>) -> AstV {
        match self {
            AstV::Root(_) => AstV::Root(c),
            AstV::Sequence(s, _) => AstV::Sequence(s, c),
            AstV::Gap(_) => AstV::Gap(c),
            _ => self,
        }
    }

    /// Whether the node is one of the interactive commands.
    pub open spec fn interactive(self) -> bool {
        self is Reload || self is Load || self is Inspect
    }
}

impl<'n> ASTNode<'n> {
    /// The children of a root, a sequence or a gap, as nodes.
    pub open spec fn kids(&self) -> Seq<ASTNode<'n>> {
        match *self {
            ASTNode::Root(v) => v@,
            ASTNode::Sequence(_, v) => v@,
            ASTNode::Gap(v) => v@,
            _ => Seq::empty(),
        }
    }

    /// Appends `n` to the children of a root, a sequence or a gap, and gives its index.
    pub fn insert_node(&mut self, n: ASTNode<'n>) -> (r: usize)
        requires
            old(self)@.has_children(),
        ensures
            final(self)@ == old(self)@.with_children(old(self)@.children().push(n@)),
            final(self).kids() == old(self).kids().push(n),
            r == old(self)@.children().len(),
    {
        proof {
            lemma_ast_views(self.kids());
        }
        let ghost before = self.kids();
        let ghost nv = n@;
        let r = match self {
            ASTNode::Root(v) => {
                v.push(n);
                v.len() - 1
            },
            ASTNode::Sequence(_, v) => {
                v.push(n);
                v.len() - 1
            },
            ASTNode::Gap(v) => {
                v.push(n);
                v.len() - 1
            },
            _ => {
                proof {
                    assert(false);
                }
                0
            },
        };
        proof {
            lemma_ast_views_push(before, n);
        }
        r
    }

    /// The children of a root, a sequence or a gap.
    pub fn get_children(&self) -> (r: &Vec<ASTNode<'n>>)
        requires
            self@.has_children(),
        ensures
            r@ == self.kids(),
            ast_views(r@) == self@.children(),
    {
        match self {
            ASTNode::Sequence(_, v) => v,
            ASTNode::Root(v) => v,
            ASTNode::Gap(v) => v,
            _ => {
                proof {
                    assert(false);
                }
                unreached()
            },
        }
    }

    /// Replaces the children of a root, a sequence or a gap.
    pub fn set_children(&mut self, nc: Vec<ASTNode<'n>>)
        requires
            old(self)@.has_children(),
        ensures
            final(self)@ == old(self)@.with_children(ast_views(nc@)),
            final(self).kids() == nc@,
    {
        match self {
            ASTNode::Sequence(_, v) => *v = nc,
            ASTNode::Root(v) => *v = nc,
            ASTNode::Gap(v) => *v = nc,
            _ => {
                proof {
                    assert(false);
                }
            },
        }
    }

    /// The child at `idx` of a root, a sequence or a gap.
    pub fn get_child(&self, idx: usize) -> (r: &ASTNode<'n>)
        requires
            self@.has_children(),
            idx < self@.children().len(),
        ensures
            *r == self.kids()[idx as int],
            r@ == self@.children()[idx as int],
    {
        proof {
            lemma_ast_views(self.kids());
        }
        let c = match self {
            ASTNode::Sequence(_, v) => v,
            ASTNode::Root(v) => v,
            ASTNode::Gap(v) => v,
            _ => {
                proof {
                    assert(false);
                }
                unreached()
            },
        };
        &c[idx]
    }

    /// The name of a sequence.
    pub fn get_name(&self) -> (r: &'n str)
        requires
            self@ is Sequence,
        ensures
            self@ matches AstV::Sequence(s, _) && r@ == s,
    {
        match self {
            ASTNode::Sequence(s, _) => s,
            _ => {
                proof {
                    assert(false);
                }
                unreached()
            },
        }
    }

    /// Whether the node is one of the interactive commands `reload`, `load`, `inspect`.
    pub fn is_interactive(&self) -> (r: bool)
        ensures
            r == self@.interactive(),
    {
        matches!(self, Self::Reload | Self::Load(_) | Self::Inspect(_))
    }
}


/// How a node is written in the tree drawing (`Display`).
pub open spec fn node_text(n: AstV) -> Seq<char> {
    match n {
        AstV::Root(_) => Seq::empty(),
        AstV::Sequence(s, _) => "seq "@ + s,
        AstV::Tal(u) => "tal "@ + decimal_text(u as nat),
        AstV::Nad(u) => "nad "@ + decimal_text(u as nat),
        AstV::FnCall(s) => s,
        AstV::Gap(_) => "gap"@,
        AstV::Figure(n) => decimal_text(n as nat),
        AstV::Reload => "reload"@,
        AstV::Load(s) => "load "@ + s,
        AstV::Inspect(s) => "inspect "@ + s,
    }
}

/// The lines that draw the tree `n` under `prefix`; `is_last` tells whether `n` is
/// the last child of its parent.
pub open spec fn tree_lines(n: AstV, prefix: Seq<char>, is_last: bool) -> Seq<Seq<char>>
    decreases n, 0int,
{
    let connector = if is_last { "\\_"@ } else { "|- "@ };
    let child_prefix = prefix + if is_last { "    "@ } else { "|    "@ };
    seq![prefix + connector + node_text(n)] + match n {
        AstV::Root(v) => children_lines(v, child_prefix, 0),
        AstV::Sequence(_, v) => children_lines(v, child_prefix, 0),
        AstV::Gap(v) => children_lines(v, child_prefix, 0),
        _ => Seq::empty(),
    }
}

/// The lines that draw the children `cs` from `i` on under `prefix`.
pub open spec fn children_lines(cs: Seq<AstV>, prefix: Seq<char>, i: int) -> Seq<Seq<char>>
    decreases cs, cs.len() - i,
{
    if i < 0 || i >= cs.len() {
        Seq::empty()
    } else {
        tree_lines(cs[i], prefix, i == cs.len() - 1) + children_lines(cs, prefix, i + 1)
    }
}

/// The number of nodes in the tree `n`: itself and all that it holds, at any depth.
pub open spec fn tree_size(n: AstV) -> nat
    decreases n, 0int,
{
    match n {
        AstV::Root(v) => 1 + forest_size(v, 0),
        AstV::Sequence(_, v) => 1 + forest_size(v, 0),
        AstV::Gap(v) => 1 + forest_size(v, 0),
        _ => 1,
    }
}

/// The number of nodes in the trees `cs` from `i` on.
pub open spec fn forest_size(cs: Seq<AstV>, i: int) -> nat
    decreases cs, cs.len() - i,
{
    if i < 0 || i >= cs.len() {
        0
    } else {
        tree_size(cs[i]) + forest_size(cs, i + 1)
    }
}

/// The drawing of a tree has one line for each of its nodes, whether or not it is the
/// last child of its parent, and its first line is the node's own.
pub proof fn law_one_line_per_node(n: AstV, prefix: Seq<char>, is_last: bool)
    ensures
        tree_lines(n, prefix, is_last).len() == tree_size(n),
        tree_lines(n, prefix, is_last)[0] == prefix + (if is_last { "\\_"@ } else { "|- "@ })
            + node_text(n),
    decreases n, 0int,
{
    let child_prefix = prefix + if is_last { "    "@ } else { "|    "@ };
    match n {
        AstV::Root(v) => lemma_forest_lines(v, child_prefix, 0),
        AstV::Sequence(_, v) => lemma_forest_lines(v, child_prefix, 0),
        AstV::Gap(v) => lemma_forest_lines(v, child_prefix, 0),
        _ => {},
    }
}

/// The drawing of the trees `cs` from `i` on has one line for each of their nodes.
proof fn lemma_forest_lines(cs: Seq<AstV>, prefix: Seq<char>, i: int)
    ensures
        children_lines(cs, prefix, i).len() == forest_size(cs, i),
    decreases cs, cs.len() - i,
{
    if 0 <= i < cs.len() {
        assert(decreases_to!(cs => cs[i]));
        law_one_line_per_node(cs[i], prefix, i == cs.len() - 1);
        lemma_forest_lines(cs, prefix, i + 1);
    }
}

/// The texts of a sequence of strings.
pub open spec fn lines_view(v: Seq<String>) -> Seq<Seq<char>> {
    v.map_values(|s: String| s@)
}

/// Appends the lines `b` to `a`.
fn append_lines(a: &mut Vec<String>, b: Vec<String>)
    ensures
        lines_view(final(a)@) == lines_view(old(a)@) + lines_view(b@),
{
    let ghost bv = b@;
    let mut b = b;
    a.append(&mut b);
    assert(lines_view(a@) =~= lines_view(old(a)@) + lines_view(bv));
}

impl<'n> ASTNode<'n> {
    /// How the node is written in the tree drawing.
    pub fn to_text(&self) -> (r: String)
        ensures
            r@ == node_text(self@),
    {
        match self {
            ASTNode::Root(_) => String::new(),
            ASTNode::Sequence(s, _) => joined("seq ", s),
            ASTNode::Tal(u) => joined("tal ", usize_text(*u).as_str()),
            ASTNode::Nad(u) => joined("nad ", usize_text(*u).as_str()),
            ASTNode::FnCall(s) => String::from_str(s),
            ASTNode::Gap(_) => String::from_str("gap"),
            ASTNode::Figure(n) => usize_text(*n),
            ASTNode::Reload => String::from_str("reload"),
            ASTNode::Load(s) => joined("load ", s),
            ASTNode::Inspect(s) => joined("inspect ", s),
        }
    }

    /// The lines that draw the tree.
    pub fn prettyprint(&self) -> (r: Vec<String>)
        ensures
            lines_view(r@) == tree_lines(self@, Seq::empty(), true),
    {
        let r = self.dfs("", true);
        proof {
            assert(""@ =~= Seq::<char>::empty()) by {
                reveal_strlit("");
            }
        }
        r
    }

    /// The lines that draw the tree under `prefix`.
    fn dfs(&self, prefix: &str, is_last: bool) -> (r: Vec<String>)
        ensures
            lines_view(r@) == tree_lines(self@, prefix@, is_last),
        decreases self,
    {
        let connector = if is_last { "\\_" } else { "|- " };
        let mut line = String::from_str(prefix);
        line.append(connector);
        line.append(self.to_text().as_str());
        let mut out: Vec<String> = Vec::new();
        out.push(line);
        let child_prefix = joined(prefix, if is_last { "    " } else { "|    " });
        let ghost cp = child_prefix@;
        assert(lines_view(out@) =~= seq![prefix@ + (if is_last { "\\_"@ } else { "|- "@ }) + node_text(self@)]);
        match self {
            ASTNode::Root(v) => {
                proof {
                    assert(decreases_to!(self => self->Root_0));
                }
                let rest = Self::dfs_children(v, child_prefix.as_str());
                append_lines(&mut out, rest);
            },
            ASTNode::Sequence(_, v) => {
                proof {
                    assert(decreases_to!(self => self->Sequence_1));
                }
                let rest = Self::dfs_children(v, child_prefix.as_str());
                append_lines(&mut out, rest);
            },
            ASTNode::Gap(v) => {
                proof {
                    assert(decreases_to!(self => self->Gap_0));
                }
                let rest = Self::dfs_children(v, child_prefix.as_str());
                append_lines(&mut out, rest);
            },
            _ => {
                assert(lines_view(out@) =~= lines_view(out@) + Seq::<Seq<char>>::empty());
            },
        }
        out
    }

    /// The lines that draw the children `v` under `prefix`.
    fn dfs_children(v: &Vec<ASTNode<'n>>, prefix: &str) -> (r: Vec<String>)
        ensures
            lines_view(r@) == children_lines(ast_views(v@), prefix@, 0),
        decreases v, 1int,
    {
        proof {
            lemma_ast_views(v@);
        }
        let ghost cs = ast_views(v@);
        let mut out: Vec<String> = Vec::new();
        let count = v.len();
        let mut i: usize = 0;
        while i < count
            invariant
                i <= count,
                count == v.len(),
                cs == ast_views(v@),
                cs.len() == v.len(),
                forall|k: int| 0 <= k < v.len() ==> cs[k] == ast_view(#[trigger] v@[k]),
                lines_view(out@) + children_lines(cs, prefix@, i as int) == children_lines(cs, prefix@, 0),
            decreases count - i,
        {
            let child = &v[i];
            proof {
                assert(decreases_to!(v => v@[i as int]));
            }
            let is_last_child = i == count - 1;
            let sub = child.dfs(prefix, is_last_child);
            let ghost before = out@;
            append_lines(&mut out, sub);
            i = i + 1;
        }
        assert(lines_view(out@) + Seq::<Seq<char>>::empty() =~= lines_view(out@));
        out
    }
}

} // verus!
