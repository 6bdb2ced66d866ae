//! Strictly written input, and the proof that the lenient parser reads all
//! of it.
//!
//! Strict writing allows no leniency: a primitive is a run, the items of an
//! array and the fields of an object are separated by single commas, every
//! key is a run followed by a colon, and every container is closed.

use vstd::prelude::*;

use crate::lexer::is_run;
use crate::parser::{elements_from, is_mark, left, members_from, readable, value_at};
use crate::value::Tree;

verus! {

/// Where the strictly written value that starts at token `at` ends; `None`
/// where no such value starts there.
pub open spec fn strict_value(tokens: Seq<Seq<char>>, at: int) -> Option<int>
    decreases left(tokens, at), 0int,
{
    if !(0 <= at < tokens.len()) {
        None
    } else if is_mark(tokens[at], '{') {
        if at + 1 < tokens.len() && is_mark(tokens[at + 1], '}') {
            Some(at + 2)
        } else {
            strict_members(tokens, at + 1)
        }
    } else if is_mark(tokens[at], '[') {
        if at + 1 < tokens.len() && is_mark(tokens[at + 1], ']') {
            Some(at + 2)
        } else {
            strict_elements(tokens, at + 1)
        }
    } else if is_run(tokens[at]) {
        Some(at + 1)
    } else {
        None
    }
}

/// Where an array ends whose next item starts at token `at`: after the `]`
/// that follows its last item.
pub open spec fn strict_elements(tokens: Seq<Seq<char>>, at: int) -> Option<int>
    decreases left(tokens, at), 1int,
{
    match strict_value(tokens, at) {
        Some(next) => if 0 <= at < next < tokens.len() {
            if is_mark(tokens[next], ']') {
                Some(next + 1)
            } else if is_mark(tokens[next], ',') {
                strict_elements(tokens, next + 1)
            } else {
                None
            }
        } else {
            None
        },
        None => None,
    }
}

/// Where an object ends whose next key is token `at`: after the `}` that
/// follows its last field.
pub open spec fn strict_members(tokens: Seq<Seq<char>>, at: int) -> Option<int>
    decreases left(tokens, at), 1int,
{
    if 0 <= at && at + 2 < tokens.len() && is_run(tokens[at]) && is_mark(tokens[at + 1], ':') {
        match strict_value(tokens, at + 2) {
            Some(next) => if at < next < tokens.len() {
                if is_mark(tokens[next], '}') {
                    Some(next + 1)
                } else if is_mark(tokens[next], ',') {
                    strict_members(tokens, next + 1)
                } else {
                    None
                }
            } else {
                None
            },
            None => None,
        }
    } else {
        None
    }
}

/// A strictly written value is always read, the reading ends exactly where
/// the value ends, and that is inside the tokens: nothing is owed, and the
/// cursor fits the machine word of any token vector.
pub proof fn lemma_strict_value_is_read(tokens: Seq<Seq<char>>, at: int)
    requires
        strict_value(tokens, at) is Some,
    ensures
        value_at(tokens, at) matches Some((_, next)) && next == strict_value(tokens, at).unwrap()
            && at < next <= tokens.len(),
    decreases left(tokens, at), 0int,
{
    if is_mark(tokens[at], '{') {
        if !(at + 1 < tokens.len() && is_mark(tokens[at + 1], '}')) {
            lemma_strict_members_are_read(tokens, at + 1, Map::empty());
        }
    } else if is_mark(tokens[at], '[') {
        if !(at + 1 < tokens.len() && is_mark(tokens[at + 1], ']')) {
            lemma_strict_elements_are_read(tokens, at + 1, Seq::empty());
        }
    }
}

/// The walk over strictly written items stops at the closing `]`.
pub proof fn lemma_strict_elements_are_read(tokens: Seq<Seq<char>>, at: int, items: Seq<Tree>)
    requires
        strict_elements(tokens, at) is Some,
    ensures
        elements_from(tokens, at, items) matches Some((_, stop)) && stop + 1 == strict_elements(
            tokens,
            at,
        ).unwrap() && at < stop < tokens.len(),
    decreases left(tokens, at), 1int,
{
    lemma_strict_value_is_read(tokens, at);
    let (item, next) = value_at(tokens, at).unwrap();
    reveal_with_fuel(elements_from, 2);
    if is_mark(tokens[next], ',') {
        lemma_strict_elements_are_read(tokens, next + 1, items.push(item));
    }
}

/// The walk over strictly written fields stops at the closing `}`.
pub proof fn lemma_strict_members_are_read(
    tokens: Seq<Seq<char>>,
    at: int,
    fields: Map<Seq<char>, Tree>,
)
    requires
        strict_members(tokens, at) is Some,
    ensures
        members_from(tokens, at, fields) matches Some((_, stop)) && stop + 1 == strict_members(
            tokens,
            at,
        ).unwrap() && at < stop < tokens.len(),
    decreases left(tokens, at), 1int,
{
    lemma_strict_value_is_read(tokens, at + 2);
    let (item, next) = value_at(tokens, at + 2).unwrap();
    if is_mark(tokens[next], ',') {
        lemma_strict_members_are_read(tokens, next + 1, fields.insert(tokens[at], item));
    }
}

/// Strictly written tokens meet what `parse_value` asks for, whatever their
/// number.
pub proof fn lemma_strict_is_readable(tokens: Seq<Seq<char>>, at: int)
    requires
        strict_value(tokens, at) is Some,
        tokens.len() <= usize::MAX,
    ensures
        readable(value_at(tokens, at)),
{
    lemma_strict_value_is_read(tokens, at);
}

} // verus!
