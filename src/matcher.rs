//! Finding the bracket that closes an opening one.
use vstd::prelude::*;

verus! {

/// The three kinds of bracket.
#[derive(Debug, Clone, Copy, PartialEq, Eq, Structural)]
pub enum Bracket {
    /// `(` and `)`
    Paren,
    /// `{` and `}`
    Curly,
    /// `[` and `]`
    Square,
}

impl Bracket {
    /// The character that opens a group of this kind.
    pub open spec fn open_char(self) -> char {
        match self {
            Bracket::Paren => '(',
            Bracket::Curly => '{',
            Bracket::Square => '[',
        }
    }

    /// The character that closes a group of this kind.
    pub open spec fn close_char(self) -> char {
        match self {
            Bracket::Paren => ')',
            Bracket::Curly => '}',
            Bracket::Square => ']',
        }
    }
}

/// The nesting counter of kind `b` after the first `k` characters of `s`:
/// opening characters of `b` counted up, closing ones counted down; the other
/// kinds do not count.
pub open spec fn depth(s: Seq<char>, k: int, b: Bracket) -> int
    decreases k,
{
    if k <= 0 {
        0
    } else {
        let step: int = if s[k - 1] == b.open_char() {
            1
        } else if s[k - 1] == b.close_char() {
            -1
        } else {
            0
        };
        depth(s, k - 1, b) + step
    }
}

/// The character at `i` closes `b` and brings the counter back to zero.
pub open spec fn closes_at(s: Seq<char>, i: int, b: Bracket) -> bool {
    &&& 0 <= i < s.len()
    &&& s[i] == b.close_char()
    &&& depth(s, i + 1, b) == 0
}

/// `i` is the first position at which `b` is closed.
pub open spec fn is_first_close(s: Seq<char>, i: int, b: Bracket) -> bool {
    &&& closes_at(s, i, b)
    &&& forall|j: int| 0 <= j < i ==> !closes_at(s, j, b)
}

/// Where the bracket of kind `b` that `s` starts with is closed, if anywhere.
pub open spec fn matching_close(s: Seq<char>, b: Bracket) -> Option<nat> {
    if exists|i: nat| is_first_close(s, i as int, b) {
        Some(choose|i: nat| is_first_close(s, i as int, b))
    } else {
        None
    }
}

/// Two first closes are the same position.
pub proof fn lemma_first_close_unique(s: Seq<char>, i: int, j: int, b: Bracket)
    requires
        is_first_close(s, i, b),
        is_first_close(s, j, b),
    ensures
        i == j,
{
}

/// Scans `origin` for the character that closes the bracket of kind `bracket`
/// it starts with, counting only that kind, and returns its position in
/// characters; `None` where the counter never comes back to zero.
pub fn search_end_bracket(origin: &str, bracket: &Bracket) -> (r: Option<usize>)
    ensures
        match r {
            Some(i) => is_first_close(origin@, i as int, *bracket),
            None => forall|i: int| !closes_at(origin@, i, *bracket),
        },
        match r {
            Some(i) => matching_close(origin@, *bracket) == Some(i as nat),
            None => matching_close(origin@, *bracket) is None,
        },
{
    let ghost s = origin@;
    let targets: (char, char) = match bracket {
        Bracket::Paren => ('(', ')'),
        Bracket::Curly => ('{', '}'),
        Bracket::Square => ('[', ']'),
    };
    let n = origin.unicode_len();
    let mut opens: usize = 0;
    let mut closes: usize = 0;
    let mut index: usize = 0;
    while index < n
        invariant
            n == s.len(),
            s == origin@,
            targets.0 == bracket.open_char(),
            targets.1 == bracket.close_char(),
            index <= n,
            opens + closes <= index,
            opens - closes == depth(s, index as int, *bracket),
            forall|j: int| 0 <= j < index ==> !closes_at(s, j, *bracket),
        decreases n - index,
    {
        let ch = origin.get_char(index);
        if ch == targets.0 {
            opens = opens + 1;
        } else if ch == targets.1 {
            closes = closes + 1;
            if opens == closes {
                proof {
                    assert(is_first_close(s, index as int, *bracket));
                    let c = choose|i: nat| is_first_close(s, i as int, *bracket);
                    lemma_first_close_unique(s, c as int, index as int, *bracket);
                }
                return Some(index);
            }
        }
        index = index + 1;
    }
    None
}

} // verus!
