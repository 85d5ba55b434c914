//! Building the tree: text runs and bracket groups, left to right.
use vstd::prelude::*;

use crate::ast::{lemma_views_len, lemma_views_push, views, Node, AST};
use crate::matcher::{matching_close, search_end_bracket, Bracket};

verus! {

/// Why a text could not be parsed.
#[derive(Debug, Clone, Copy, PartialEq, Eq, Structural)]
pub enum ParseError {
    /// The opening bracket at this position (in characters, counted from the
    /// start of the text that the failing group was part of) is never closed.
    HasNoClosing(usize),
}

/// An opening bracket of any kind.
pub open spec fn is_open(c: char) -> bool {
    c == '(' || c == '{' || c == '['
}

/// An opening or closing bracket of any kind.
pub open spec fn is_bracket(c: char) -> bool {
    is_open(c) || c == ')' || c == '}' || c == ']'
}

/// The kind of bracket that an opening character starts.
pub open spec fn kind_of(c: char) -> Bracket {
    if c == '(' {
        Bracket::Paren
    } else if c == '{' {
        Bracket::Curly
    } else {
        Bracket::Square
    }
}

/// The node of kind `b` around `inner`.
pub open spec fn wrap(b: Bracket, inner: Node) -> Node {
    match b {
        Bracket::Paren => Node::Parenthesis(Box::new(inner)),
        Bracket::Curly => Node::Curly(Box::new(inner)),
        Bracket::Square => Node::Square(Box::new(inner)),
    }
}

/// How many characters from `i` on are not opening brackets.
pub open spec fn run_len(s: Seq<char>, i: int) -> nat
    decreases s.len() - i,
{
    if 0 <= i < s.len() && !is_open(s[i]) {
        1 + run_len(s, i + 1)
    } else {
        0
    }
}

/// A run never goes past the end of the text.
pub proof fn lemma_run_len_bound(s: Seq<char>, i: int)
    requires
        0 <= i <= s.len(),
    ensures
        i + run_len(s, i) <= s.len(),
    decreases s.len() - i,
{
    if i < s.len() && !is_open(s[i]) {
        lemma_run_len_bound(s, i + 1);
    }
}

/// A single node stands for itself; any other number of nodes forms a sequence.
pub open spec fn collapse(items: Seq<Node>) -> Node {
    if items.len() == 1 {
        items[0]
    } else {
        Node::Tokens(items)
    }
}

/// `items` followed by what `rest` holds, or the error of `rest`.
pub open spec fn prepend(items: Seq<Node>, rest: Result<Seq<Node>, ParseError>) -> Result<
    Seq<Node>,
    ParseError,
> {
    match rest {
        Ok(r) => Ok(items + r),
        Err(e) => Err(e),
    }
}

/// What `s` parses to: the empty text is one empty text node; any other text
/// is the items found in it, a single one standing alone.
pub open spec fn parse_spec(s: Seq<char>) -> Result<Node, ParseError>
    decreases s.len(), s.len() + 1,
{
    if s.len() == 0 {
        Ok(Node::Text(s))
    } else {
        match items_from(s, 0) {
            Ok(items) => Ok(collapse(items)),
            Err(e) => Err(e),
        }
    }
}

/// The items of `s` from position `i` on. Each is either a maximal run of
/// characters that are not opening brackets, or a group: an opening bracket,
/// the text up to the first character that closes it (counting its own kind
/// only), parsed, and that closing character.
pub open spec fn items_from(s: Seq<char>, i: int) -> Result<Seq<Node>, ParseError>
    decreases s.len(), s.len() - i
    via items_from_decreases
{
    if !(0 <= i < s.len()) {
        Ok(Seq::empty())
    } else if is_open(s[i]) {
        let b = kind_of(s[i]);
        match matching_close(s.subrange(i, s.len() as int), b) {
            None => Err(ParseError::HasNoClosing(i as usize)),
            Some(e) => match parse_spec(s.subrange(i + 1, i + e)) {
                Err(err) => Err(err),
                Ok(inner) => prepend(seq![wrap(b, inner)], items_from(s, i + e + 1)),
            },
        }
    } else {
        let k = i + run_len(s, i);
        prepend(seq![Node::Text(s.subrange(i, k))], items_from(s, k))
    }
}

/// A run that starts at `j` passes every position before `k` that holds
/// no opening bracket.
proof fn lemma_run_len_span(s: Seq<char>, j: int, k: int)
    requires
        0 <= j <= k <= s.len(),
        forall|m: int| j <= m < k ==> !is_open(s[m]),
    ensures
        run_len(s, j) == (k - j) + run_len(s, k),
    decreases k - j,
{
    if j < k {
        lemma_run_len_span(s, j + 1, k);
    }
}

/// Two prefixes in a row are one prefix.
proof fn lemma_prepend_prepend(
    a: Seq<Node>,
    b: Seq<Node>,
    rest: Result<Seq<Node>, ParseError>,
)
    ensures
        prepend(a, prepend(b, rest)) == prepend(a + b, rest),
{
    if let Ok(r) = rest {
        assert(a + (b + r) =~= (a + b) + r);
    }
}

/// Moving an item from the front of what is left to the end of what was built.
proof fn lemma_push_item(built: Seq<AST>, node: AST, rest: Result<Seq<Node>, ParseError>)
    ensures
        prepend(views(built), prepend(seq![node.view()], rest)) == prepend(
            views(built.push(node)),
            rest,
        ),
{
    lemma_prepend_prepend(views(built), seq![node.view()], rest);
    lemma_views_push(built, node);
    assert(views(built).push(node.view()) =~= views(built) + seq![node.view()]);
}

/// The model of what a parse returned.
pub open spec fn view_result(r: Result<AST, ParseError>) -> Result<Node, ParseError> {
    match r {
        Ok(a) => Ok(a.view()),
        Err(e) => Err(e),
    }
}

/// Parses `origin` into a tree: runs of text become `Text` nodes, each
/// bracket group the node of its kind around the parse of what it encloses,
/// and several items a `Tokens` node. An opening bracket that is never closed
/// by its own kind makes the whole parse fail, with its position in the text
/// being parsed at that depth.
pub fn parse(origin: &str) -> (r: Result<AST, ParseError>)
    ensures
        view_result(r) == parse_spec(origin@),
    decreases origin@.len(),
{
    let ghost s = origin@;
    let n = origin.unicode_len();
    if n == 0 {
        assert(s =~= Seq::<char>::empty());
        return Ok(AST::Text(String::new()));
    }
    let mut tokens: Vec<AST> = Vec::new();
    let mut last_string_start: usize = 0;
    let mut index: usize = 0;
    proof {
        assert(views(tokens@) =~= Seq::<Node>::empty());
        assert(Seq::<Node>::empty() + items_from(s, 0)->Ok_0 =~= items_from(s, 0)->Ok_0);
    }
    while index < n
        invariant
            s == origin@,
            n == s.len(),
            0 < n,
            last_string_start <= index <= n,
            forall|m: int| last_string_start <= m < index ==> !is_open(s[m]),
            items_from(s, 0) == prepend(views(tokens@), items_from(s, last_string_start as int)),
        decreases n - index,
    {
        let ch = origin.get_char(index);
        if ch == '(' || ch == '{' || ch == '[' {
            proof {
                lemma_run_len_span(s, last_string_start as int, index as int);
            }
            if last_string_start != index {
                let text = origin.substring_char(last_string_start, index).to_string();
                let ghost node = AST::Text(text);
                proof {
                    assert(text@ == s.subrange(last_string_start as int, index as int));
                    assert(items_from(s, last_string_start as int) == prepend(
                        seq![node.view()],
                        items_from(s, index as int),
                    ));
                    lemma_push_item(tokens@, node, items_from(s, index as int));
                }
                tokens.push(AST::Text(text));
            }
            let b = if ch == '(' {
                Bracket::Paren
            } else if ch == '{' {
                Bracket::Curly
            } else {
                Bracket::Square
            };
            let rest = origin.substring_char(index, n);
            let end_index = match search_end_bracket(rest, &b) {
                Some(i) => i,
                None => {
                    return Err(ParseError::HasNoClosing(index));
                },
            };
            assert(rest@[0] == ch);
            let parsed_inner = match parse(origin.substring_char(index + 1, index + end_index)) {
                Ok(ast) => ast,
                Err(err) => {
                    return Err(err);
                },
            };
            let node = match b {
                Bracket::Paren => AST::Parenthesis(Box::new(parsed_inner)),
                Bracket::Curly => AST::Curly(Box::new(parsed_inner)),
                Bracket::Square => AST::Square(Box::new(parsed_inner)),
            };
            proof {
                assert(b == kind_of(s[index as int]));
                assert(matching_close(s.subrange(index as int, n as int), b) == Some(end_index as nat));
                assert(items_from(s, index as int) == prepend(
                    seq![node.view()],
                    items_from(s, index + end_index + 1),
                ));
                lemma_push_item(tokens@, node, items_from(s, index + end_index + 1));
            }
            tokens.push(node);
            last_string_start = index + end_index + 1;
            index = index + end_index + 1;
        } else {
            index = index + 1;
        }
    }
    proof {
        lemma_run_len_span(s, last_string_start as int, n as int);
    }
    if last_string_start < n {
        let text = origin.substring_char(last_string_start, n).to_string();
        let ghost node = AST::Text(text);
        proof {
            lemma_push_item(tokens@, node, items_from(s, n as int));
        }
        tokens.push(AST::Text(text));
    }
    proof {
        assert(views(tokens@) + Seq::<Node>::empty() =~= views(tokens@));
        lemma_views_len(tokens@);
    }
    if tokens.len() == 1 {
        proof {
            assert(tokens@ =~= Seq::<AST>::empty().push(tokens@[0]));
            lemma_views_push(Seq::<AST>::empty(), tokens@[0]);
            assert(views(Seq::<AST>::empty()) =~= Seq::<Node>::empty());
        }
        return Ok(tokens.pop().unwrap());
    }
    Ok(AST::Tokens(tokens))
}

/// A text that holds no bracket character parses to one text node that holds
/// all of it.
pub proof fn lemma_plain_text_is_one_node(s: Seq<char>)
    requires
        forall|i: int| 0 <= i < s.len() ==> !is_bracket(#[trigger] s[i]),
    ensures
        parse_spec(s) == Ok::<Node, ParseError>(Node::Text(s)),
{
    if s.len() > 0 {
        assert forall|m: int| 0 <= m < s.len() implies !is_open(s[m]) by {
            assert(!is_bracket(s[m]));
        }
        lemma_run_len_span(s, 0, s.len() as int);
        assert(run_len(s, s.len() as int) == 0);
        assert(items_from(s, s.len() as int) == Ok::<Seq<Node>, ParseError>(Seq::empty()));
        assert(s.subrange(0, s.len() as int) =~= s);
        assert(seq![Node::Text(s)] + Seq::<Node>::empty() =~= seq![Node::Text(s)]);
    }
}

/// A parse never yields a sequence of fewer than two items: a single item
/// stands alone, and every text gives at least one.
pub proof fn lemma_tokens_hold_two_or_more(s: Seq<char>)
    ensures
        parse_spec(s) matches Ok(Node::Tokens(items)) ==> items.len() >= 2,
{
    if s.len() > 0 {
        if let Ok(items) = items_from(s, 0) {
            assert(items.len() >= 1);
        }
    }
}

/// Each text run moves the position forward without passing the end.
#[via_fn]
proof fn items_from_decreases(s: Seq<char>, i: int) {
    if 0 <= i < s.len() {
        lemma_run_len_bound(s, i);
    }
}

} // verus!
