//! Bracket matching with a stack.

use vstd::prelude::*;

verus! {

/// What a scan of a text for brackets has come to.
pub enum Scan {
    /// All closing brackets so far matched; these opening brackets are still open.
    Open(Seq<char>),
    /// A closing bracket met an opening bracket of another kind.
    Mismatch,
    /// A closing bracket came when no bracket was open.
    Underflow,
}

/// `c` is one of `(`, `[`, `{`.
pub open spec fn is_opening(c: char) -> bool {
    c == '(' || c == '[' || c == '{'
}

/// The opening bracket that the closing bracket `c` matches.
pub open spec fn partner(c: char) -> Option<char> {
    if c == ')' {
        Some('(')
    } else if c == ']' {
        Some('[')
    } else if c == '}' {
        Some('{')
    } else {
        None
    }
}

/// Reads `text` from the left: an opening bracket is kept, a closing bracket
/// takes away the last one kept if it matches, other characters are passed by.
/// The first closing bracket without a match ends the scan.
pub open spec fn scan(text: Seq<char>) -> Scan
    decreases text.len(),
{
    if text.len() == 0 {
        Scan::Open(Seq::empty())
    } else {
        match scan(text.drop_last()) {
            Scan::Open(open) => {
                let c = text.last();
                if is_opening(c) {
                    Scan::Open(open.push(c))
                } else if partner(c) is Some {
                    if open.len() == 0 {
                        Scan::Underflow
                    } else if open.last() != partner(c).unwrap() {
                        Scan::Mismatch
                    } else {
                        Scan::Open(open.drop_last())
                    }
                } else {
                    Scan::Open(open)
                }
            },
            ended => ended,
        }
    }
}

/// Whether the round, square and curly brackets of `s` are balanced and
/// properly nested; `None` for a text in which a closing bracket comes while
/// no bracket is open, before any mismatch.
pub fn check_parentheses(s: &str) -> (valid: Option<bool>)
    ensures
        valid is None <==> scan(s@) is Underflow,
        valid matches Some(v) ==> (v <==> scan(s@) == Scan::Open(Seq::empty())),
{
    let mut stack: Vec<char> = Vec::new();
    proof {
        assert(s@.take(0) =~= Seq::empty());
    }
    for c in iter: s.chars()
        invariant
            iter.seq() == s@,
            scan(s@.take(iter.index() as int)) == Scan::Open(stack@),
    {
        let ghost i = iter.index() as int;
        proof {
            assert(s@.take(i + 1).drop_last() =~= s@.take(i));
            assert(s@.take(i + 1).last() == c);
        }
        if c == '(' || c == '[' || c == '{' {
            stack.push(c);
        } else if c == ')' || c == ']' || c == '}' {
            let wanted = if c == ')' {
                '('
            } else if c == ']' {
                '['
            } else {
                '{'
            };
            match stack.pop() {
                None => {
                    proof {
                        lemma_scan_ended(s@, i + 1);
                    }
                    return None;
                },
                Some(top) => {
                    if top != wanted {
                        proof {
                            lemma_scan_ended(s@, i + 1);
                        }
                        return Some(false);
                    }
                },
            }
        }
    }
    proof {
        assert(s@.take(s@.len() as int) =~= s@);
        if stack@.len() == 0 {
            assert(stack@ =~= Seq::empty());
        }
    }
    Some(stack.len() == 0)
}

/// Whether the round, square and curly brackets of `s` are balanced and
/// properly nested. A text in which a closing bracket comes while no bracket
/// is open, before any mismatch, is not taken.
pub fn is_valid_parentheses(s: &str) -> (valid: bool)
    requires
        !(scan(s@) is Underflow),
    ensures
        valid <==> scan(s@) == Scan::Open(Seq::empty()),
{
    check_parentheses(s).unwrap()
}

/// A scan that has ended on a prefix of a text has ended in the same way on the text.
pub proof fn lemma_scan_ended(text: Seq<char>, upto: int)
    requires
        0 <= upto <= text.len(),
        !(scan(text.take(upto)) is Open),
    ensures
        scan(text) == scan(text.take(upto)),
    decreases text.len() - upto,
{
    if upto < text.len() {
        assert(text.take(upto + 1).drop_last() =~= text.take(upto));
        lemma_scan_ended(text, upto + 1);
    } else {
        assert(text.take(upto) =~= text);
    }
}

} // verus!
