//! The parse tree and its mathematical model.
use vstd::prelude::*;

verus! {

/// A node of the parse tree.
#[derive(Debug, PartialEq, Eq)]
pub enum AST {
    /// A run of plain text.
    Text(String),
    /// What stood between `(` and `)`.
    Parenthesis(Box<AST>),
    /// What stood between `{` and `}`.
    Curly(Box<AST>),
    /// What stood between `[` and `]`.
    Square(Box<AST>),
    /// Several nodes side by side, in the order of the text.
    Tokens(Vec<AST>),
}

/// The model of a parse tree: text as a sequence of characters.
pub enum Node {
    Text(Seq<char>),
    Parenthesis(Box<Node>),
    Curly(Box<Node>),
    Square(Box<Node>),
    Tokens(Seq<Node>),
}

impl AST {
    /// The model of this tree.
    pub open spec fn view(&self) -> Node
        decreases self,
    {
        match self {
            AST::Text(s) => Node::Text(s@),
            AST::Parenthesis(a) => Node::Parenthesis(Box::new(a.view())),
            AST::Curly(a) => Node::Curly(Box::new(a.view())),
            AST::Square(a) => Node::Square(Box::new(a.view())),
            AST::Tokens(v) => Node::Tokens(views(v@)),
        }
    }
}

/// The models of a sequence of trees, in order.
pub open spec fn views(s: Seq<AST>) -> Seq<Node>
    decreases s,
{
    if s.len() == 0 {
        Seq::empty()
    } else {
        views(s.subrange(0, s.len() - 1)).push(s[s.len() - 1].view())
    }
}

/// Adding a tree at the end adds its model at the end.
pub proof fn lemma_views_push(s: Seq<AST>, a: AST)
    ensures
        views(s.push(a)) == views(s).push(a.view()),
{
    assert(s.push(a).subrange(0, s.len() as int) =~= s);
}

/// There is one model for each tree.
pub proof fn lemma_views_len(s: Seq<AST>)
    ensures
        views(s).len() == s.len(),
    decreases s.len(),
{
    if s.len() > 0 {
        lemma_views_len(s.subrange(0, s.len() - 1));
    }
}

/// The model at each position is the model of the tree there.
pub proof fn lemma_views_index(s: Seq<AST>, i: int)
    requires
        0 <= i < s.len(),
    ensures
        views(s)[i] == s[i].view(),
        views(s).len() == s.len(),
    decreases s.len(),
{
    let front = s.subrange(0, s.len() - 1);
    lemma_views_len(front);
    if i < s.len() - 1 {
        lemma_views_index(front, i);
    }
}

/// The text that `render` gives for a tree.
pub open spec fn render_spec(n: Node) -> Seq<char>
    decreases n,
{
    match n {
        Node::Text(t) => "AST::Text("@ + t + ")"@,
        Node::Parenthesis(a) => "AST::Parenthesis("@ + render_spec(*a) + ")"@,
        Node::Curly(a) => "AST::Curly("@ + render_spec(*a) + ")"@,
        Node::Square(a) => "AST::Square("@ + render_spec(*a) + ")"@,
        Node::Tokens(items) => "AST::Tokens([ "@ + render_items(items) + "]"@,
    }
}

/// Each item rendered and followed by `", "`.
pub open spec fn render_items(items: Seq<Node>) -> Seq<char>
    decreases items,
{
    if items.len() == 0 {
        Seq::empty()
    } else {
        render_items(items.subrange(0, items.len() - 1)) + render_spec(items[items.len() - 1])
            + ", "@
    }
}

impl AST {
    /// A readable form of the tree, each node written as its variant's name
    /// around its content: `AST::Tokens([ AST::Text(a), AST::Curly(AST::Text(b)), ])`.
    pub fn render(&self) -> (r: String)
        ensures
            r@ == render_spec(self.view()),
        decreases self,
    {
        match self {
            AST::Text(inner) => {
                let mut r = String::from_str("AST::Text(");
                r.append(inner.as_str());
                r.append(")");
                r
            },
            AST::Parenthesis(inner) => {
                let mut r = String::from_str("AST::Parenthesis(");
                let sub = inner.render();
                r.append(sub.as_str());
                r.append(")");
                r
            },
            AST::Curly(inner) => {
                let mut r = String::from_str("AST::Curly(");
                let sub = inner.render();
                r.append(sub.as_str());
                r.append(")");
                r
            },
            AST::Square(inner) => {
                let mut r = String::from_str("AST::Square(");
                let sub = inner.render();
                r.append(sub.as_str());
                r.append(")");
                r
            },
            AST::Tokens(tokens) => {
                let ghost items = views(tokens@);
                let mut r = String::from_str("AST::Tokens([ ");
                let mut i: usize = 0;
                proof {
                    lemma_views_len(tokens@);
                    assert(items.subrange(0, 0) =~= Seq::<Node>::empty());
                }
                while i < tokens.len()
                    invariant
                        *self == AST::Tokens(*tokens),
                        items == views(tokens@),
                        items.len() == tokens.len(),
                        i <= tokens.len(),
                        r@ == "AST::Tokens([ "@ + render_items(items.subrange(0, i as int)),
                    decreases tokens.len() - i,
                {
                    proof {
                        lemma_views_index(tokens@, i as int);
                        vstd::std_specs::vec::axiom_vec_index_decreases(*tokens, i as int);
                        assert(decreases_to!(*self => self->Tokens_0));
                        assert(decreases_to!(*self => tokens[i as int]));
                    }
                    let sub = tokens[i].render();
                    r.append(sub.as_str());
                    r.append(", ");
                    proof {
                        assert(items.subrange(0, i + 1).subrange(0, i as int) =~= items.subrange(
                            0,
                            i as int,
                        ));
                    }
                    i = i + 1;
                }
                assert(items.subrange(0, i as int) =~= items);
                r.append("]");
                r
            },
        }
    }
}

} // verus!
