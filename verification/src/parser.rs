//! The recursive-descent parser: it walks a token sequence with one shared
//! cursor and builds the value tree.
//!
//! The grammar is lenient. Inside an object the colon after a key is
//! optional, and the first token after a field that is not a comma ends the
//! object, whatever it is. Inside an array a comma is skipped wherever it
//! stands. Running out of tokens ends an object or an array quietly. Only a
//! value that is owed where no token is left cannot be read.

use vstd::prelude::*;

use crate::lexer::{is_run, tokenize, tokens_of};
use crate::value::{lemma_trees_of_push, trees_of, Fields, Tree, Value};

verus! {

/// Whether `token` consists of the single character `c`.
pub open spec fn is_mark(token: Seq<char>, c: char) -> bool {
    token.len() == 1 && token[0] == c
}

/// The number of tokens from `at` to the end; zero outside the sequence.
pub open spec fn left(tokens: Seq<Seq<char>>, at: int) -> nat {
    if 0 <= at < tokens.len() {
        (tokens.len() - at) as nat
    } else {
        0
    }
}

/// The array built from the items that a walk collected, with the cursor
/// moved one past the place where the walk stopped.
pub open spec fn closed_array(walk: Option<(Seq<Tree>, int)>) -> Option<(Tree, int)> {
    match walk {
        Some((items, stop)) => Some((Tree::Array(items), stop + 1)),
        None => None,
    }
}

/// The object built from the fields that a walk collected, with the cursor
/// moved one past the place where the walk stopped.
pub open spec fn closed_object(walk: Option<(Map<Seq<char>, Tree>, int)>) -> Option<(Tree, int)> {
    match walk {
        Some((fields, stop)) => Some((Tree::Object(fields), stop + 1)),
        None => None,
    }
}

/// The value that starts at token `at`, with the cursor after it; `None`
/// where a value is owed and cannot be read.
///
/// `{` starts an object and `[` an array; any other token is a primitive and
/// stands for itself.
pub open spec fn value_at(tokens: Seq<Seq<char>>, at: int) -> Option<(Tree, int)>
    decreases left(tokens, at), 0int,
{
    if !(0 <= at < tokens.len()) {
        None
    } else if is_mark(tokens[at], '{') {
        closed_object(members_from(tokens, at + 1, Map::empty()))
    } else if is_mark(tokens[at], '[') {
        closed_array(elements_from(tokens, at + 1, Seq::empty()))
    } else {
        Some((Tree::String(tokens[at]), at + 1))
    }
}

/// The rest of an array walk that stands at token `at` with `items` already
/// collected: the items at the end of the walk and the place where it stops,
/// which is a `]` or the end of the tokens.
///
/// The test `at < next` is there for termination alone: a value always ends
/// after the token it starts at (`lemma_value_advances`).
pub open spec fn elements_from(tokens: Seq<Seq<char>>, at: int, items: Seq<Tree>) -> Option<
    (Seq<Tree>, int),
>
    decreases left(tokens, at), 1int,
{
    if !(0 <= at < tokens.len()) {
        Some((items, at))
    } else if is_mark(tokens[at], ']') {
        Some((items, at))
    } else if is_mark(tokens[at], ',') {
        elements_from(tokens, at + 1, items)
    } else {
        match value_at(tokens, at) {
            Some((item, next)) => if at < next {
                elements_from(tokens, next, items.push(item))
            } else {
                None
            },
            None => None,
        }
    }
}

/// The rest of an object walk that stands at token `at` with `fields`
/// already collected: the fields at the end of the walk and the place where
/// it stops, which is a `}`, the first token after a field that is not a
/// comma, or the end of the tokens.
///
/// A key must be followed by at least one more token. A later field replaces
/// an earlier one with the same key. The test `start < next` is there for
/// termination alone (`lemma_value_advances`).
pub open spec fn members_from(
    tokens: Seq<Seq<char>>,
    at: int,
    fields: Map<Seq<char>, Tree>,
) -> Option<(Map<Seq<char>, Tree>, int)>
    decreases left(tokens, at), 1int,
{
    if !(0 <= at < tokens.len()) {
        Some((fields, at))
    } else if is_mark(tokens[at], '}') {
        Some((fields, at))
    } else if at + 1 >= tokens.len() {
        None
    } else {
        let start = if is_mark(tokens[at + 1], ':') {
            at + 2
        } else {
            at + 1
        };
        match value_at(tokens, start) {
            Some((item, next)) => {
                let grown = fields.insert(tokens[at], item);
                if start < next < tokens.len() && is_mark(tokens[next], ',') {
                    members_from(tokens, next + 1, grown)
                } else {
                    Some((grown, next))
                }
            },
            None => None,
        }
    }
}

/// The array whose opening bracket is token `at`, with the cursor after it.
pub open spec fn array_at(tokens: Seq<Seq<char>>, at: int) -> Option<(Tree, int)> {
    closed_array(elements_from(tokens, at + 1, Seq::empty()))
}

/// The object whose opening brace is token `at`, with the cursor after it.
pub open spec fn object_at(tokens: Seq<Seq<char>>, at: int) -> Option<(Tree, int)> {
    closed_object(members_from(tokens, at + 1, Map::empty()))
}

/// A value ends after the token it starts at, and no further than twice
/// the number of tokens.
pub proof fn lemma_value_advances(tokens: Seq<Seq<char>>, at: int)
    ensures
        value_at(tokens, at) matches Some((_, next)) ==> at < next <= 2 * tokens.len() - at,
    decreases left(tokens, at), 0int,
{
    if 0 <= at < tokens.len() {
        if is_mark(tokens[at], '{') {
            lemma_members_advance(tokens, at + 1, Map::empty());
        } else if is_mark(tokens[at], '[') {
            lemma_elements_advance(tokens, at + 1, Seq::empty());
        }
    }
}

/// An array walk never stops before the place where it stands, and one
/// that starts among the tokens stops no further than twice their number.
pub proof fn lemma_elements_advance(tokens: Seq<Seq<char>>, at: int, items: Seq<Tree>)
    ensures
        elements_from(tokens, at, items) matches Some((_, stop)) ==> at <= stop && (0 <= at
            <= tokens.len() ==> stop <= 2 * tokens.len() - at),
    decreases left(tokens, at), 1int,
{
    if 0 <= at < tokens.len() {
        if is_mark(tokens[at], ']') {
        } else if is_mark(tokens[at], ',') {
            lemma_elements_advance(tokens, at + 1, items);
        } else {
            lemma_value_advances(tokens, at);
            match value_at(tokens, at) {
                Some((item, next)) => {
                    lemma_elements_advance(tokens, next, items.push(item));
                },
                None => {},
            }
        }
    }
}

/// An object walk never stops before the place where it stands, and one
/// that starts among the tokens stops no further than twice their number.
pub proof fn lemma_members_advance(
    tokens: Seq<Seq<char>>,
    at: int,
    fields: Map<Seq<char>, Tree>,
)
    ensures
        members_from(tokens, at, fields) matches Some((_, stop)) ==> at <= stop && (0 <= at
            <= tokens.len() ==> stop <= 2 * tokens.len() - at),
    decreases left(tokens, at), 1int,
{
    if 0 <= at < tokens.len() && !is_mark(tokens[at], '}') && at + 1 < tokens.len() {
        let start = if is_mark(tokens[at + 1], ':') {
            at + 2
        } else {
            at + 1
        };
        lemma_value_advances(tokens, start);
        match value_at(tokens, start) {
            Some((item, next)) => {
                if next < tokens.len() && is_mark(tokens[next], ',') {
                    lemma_members_advance(tokens, next + 1, fields.insert(tokens[at], item));
                }
            },
            None => {},
        }
    }
}

/// A token that opens neither an object nor an array is a string with the
/// token's exact text, whatever the text looks like, and takes one token.
pub proof fn lemma_primitive_is_string(tokens: Seq<Seq<char>>, at: int)
    requires
        0 <= at < tokens.len(),
        !is_mark(tokens[at], '{'),
        !is_mark(tokens[at], '['),
    ensures
        value_at(tokens, at) == Some((Tree::String(tokens[at]), at + 1)),
{
}

/// Nesting goes to any depth: a value that stands alone between `[` and `]`
/// is read as the array of just that value, whatever the value is.
pub proof fn lemma_bracketed_value(tokens: Seq<Seq<char>>, at: int)
    requires
        0 <= at,
        at + 1 < tokens.len(),
        is_mark(tokens[at], '['),
        !is_mark(tokens[at + 1], ']'),
        !is_mark(tokens[at + 1], ','),
        value_at(tokens, at + 1) matches Some((_, next)) && next < tokens.len() && is_mark(
            tokens[next],
            ']',
        ),
    ensures
        value_at(tokens, at) == array_at(tokens, at),
        array_at(tokens, at) == Some(
            (
                Tree::Array(seq![value_at(tokens, at + 1).unwrap().0]),
                value_at(tokens, at + 1).unwrap().1 + 1,
            ),
        ),
{
    let (item, next) = value_at(tokens, at + 1).unwrap();
    lemma_value_advances(tokens, at + 1);
    reveal_with_fuel(elements_from, 2);
    assert(Seq::<Tree>::empty().push(item) =~= seq![item]);
}

/// Last write wins: in `{ k : a , k : b }`, with any primitive runs for
/// `k`, `a` and `b`, the object holds the one key `k`, mapped to `b`.
pub proof fn lemma_duplicate_key(key: Seq<char>, first: Seq<char>, second: Seq<char>)
    requires
        is_run(key),
        is_run(first),
        is_run(second),
    ensures
        object_at(
            seq![
                seq!['{'],
                key,
                seq![':'],
                first,
                seq![','],
                key,
                seq![':'],
                second,
                seq!['}'],
            ],
            0,
        ) == Some((Tree::Object(map![key => Tree::String(second)]), 9int)),
{
    let tokens = seq![
        seq!['{'],
        key,
        seq![':'],
        first,
        seq![','],
        key,
        seq![':'],
        second,
        seq!['}'],
    ];
    let none = Map::<Seq<char>, Tree>::empty();
    let once = none.insert(key, Tree::String(first));
    let twice = once.insert(key, Tree::String(second));
    assert(members_from(tokens, 9, twice) == Some((twice, 9int)));
    assert(value_at(tokens, 7) == Some((Tree::String(second), 8int)));
    assert(members_from(tokens, 8, twice) == Some((twice, 8int)));
    assert(members_from(tokens, 5, once) == Some((twice, 8int)));
    assert(value_at(tokens, 3) == Some((Tree::String(first), 4int)));
    assert(members_from(tokens, 1, none) == Some((twice, 8int)));
    assert(twice =~= map![key => Tree::String(second)]);
}

/// A comma before the closing brace is tolerated: `{ k : v , }`, with any
/// primitive runs for `k` and `v`, is the object with the single field `k`.
pub proof fn lemma_trailing_comma(key: Seq<char>, text: Seq<char>)
    requires
        is_run(key),
        is_run(text),
    ensures
        object_at(seq![seq!['{'], key, seq![':'], text, seq![','], seq!['}']], 0) == Some(
            (Tree::Object(map![key => Tree::String(text)]), 6int),
        ),
{
    let tokens = seq![seq!['{'], key, seq![':'], text, seq![','], seq!['}']];
    let none = Map::<Seq<char>, Tree>::empty();
    let once = none.insert(key, Tree::String(text));
    assert(members_from(tokens, 5, once) == Some((once, 5int)));
    assert(value_at(tokens, 3) == Some((Tree::String(text), 4int)));
    assert(members_from(tokens, 1, none) == Some((once, 5int)));
    assert(once =~= map![key => Tree::String(text)]);
}

/// A reading that succeeds and leaves a cursor that fits a machine word.
pub open spec fn readable(reading: Option<(Tree, int)>) -> bool {
    reading matches Some((_, next)) && next <= usize::MAX
}

/// Among at most half a machine word of tokens, every reading that succeeds
/// leaves a cursor that fits.
pub proof fn lemma_reading_fits(tokens: Seq<Seq<char>>, at: int)
    requires
        value_at(tokens, at) is Some,
        2 * tokens.len() <= usize::MAX,
    ensures
        readable(value_at(tokens, at)),
{
    lemma_value_advances(tokens, at);
}

/// Whether `token` consists of the single character `c`.
fn is_mark_token(token: &String, c: char) -> (r: bool)
    ensures
        r == is_mark(token@, c),
{
    let text = token.as_str();
    text.unicode_len() == 1 && text.get_char(0) == c
}

/// Tokenizes `raw` and reads the value that starts at its first token.
/// Tokens after that value are left unread.
pub fn parse(raw: &str) -> (value: Value)
    requires
        readable(value_at(tokens_of(raw@), 0)),
    ensures
        value_at(tokens_of(raw@), 0) matches Some((tree, _)) && value@ == tree,
{
    let tokens = tokenize(raw);
    let mut cursor: usize = 0;
    parse_value(&tokens, &mut cursor)
}

/// Reads the value that starts at the cursor and moves the cursor past it.
///
/// A `{` hands over to [`parse_object`], a `[` to [`parse_array`]; any other
/// token is consumed and kept as a string with the token's exact text.
pub fn parse_value(tokens: &Vec<String>, cursor: &mut usize) -> (value: Value)
    requires
        readable(value_at(tokens.deep_view(), *old(cursor) as int)),
    ensures
        value_at(tokens.deep_view(), *old(cursor) as int) == Some((value@, *final(cursor) as int)),
    decreases left(tokens.deep_view(), *old(cursor) as int), 1int,
{
    let current = &tokens[*cursor];
    if is_mark_token(current, '{') {
        parse_object(tokens, cursor)
    } else if is_mark_token(current, '[') {
        parse_array(tokens, cursor)
    } else {
        *cursor += 1;
        Value::String(current.clone())
    }
}

/// Reads the array whose opening bracket is at the cursor and moves the
/// cursor past it.
///
/// The bracket is consumed unseen. Then, until a `]` or the end of the
/// tokens, each comma is skipped and each other token starts a value that is
/// appended. The cursor ends one past the place where the walk stopped.
pub fn parse_array(tokens: &Vec<String>, cursor: &mut usize) -> (value: Value)
    requires
        readable(array_at(tokens.deep_view(), *old(cursor) as int)),
    ensures
        array_at(tokens.deep_view(), *old(cursor) as int) == Some((value@, *final(cursor) as int)),
    decreases left(tokens.deep_view(), *old(cursor) as int), 0int,
{
    let ghost texts = tokens.deep_view();
    let ghost start = *cursor as int;
    let mut array: Vec<Value> = Vec::new();
    proof {
        lemma_elements_advance(texts, start + 1, Seq::empty());
    }
    *cursor += 1;
    loop
        invariant_except_break
            elements_from(texts, start + 1, Seq::empty()) == elements_from(
                texts,
                *cursor as int,
                trees_of(array@),
            ),
            elements_from(texts, *cursor as int, trees_of(array@)) matches Some((_, stop)) && stop
                < usize::MAX,
        invariant
            texts == tokens.deep_view(),
            start == *old(cursor),
            start < *cursor,
        ensures
            elements_from(texts, start + 1, Seq::empty()) == Some(
                (trees_of(array@), *cursor as int),
            ),
            *cursor < usize::MAX,
        decreases left(texts, *cursor as int),
    {
        proof {
            lemma_elements_advance(texts, *cursor as int, trees_of(array@));
        }
        if *cursor < tokens.len() {
            let current = &tokens[*cursor];
            if is_mark_token(current, ']') {
                break;
            } else if is_mark_token(current, ',') {
                *cursor += 1;
            } else {
                proof {
                    lemma_value_advances(texts, *cursor as int);
                    let (item, next) = value_at(texts, *cursor as int).unwrap();
                    lemma_elements_advance(texts, next, trees_of(array@).push(item));
                }
                let value = parse_value(tokens, cursor);
                proof {
                    lemma_trees_of_push(array@, value);
                }
                array.push(value);
            }
        } else {
            break;
        }
    }
    *cursor += 1;
    Value::Array(array)
}

/// Reads the object whose opening brace is at the cursor and moves the
/// cursor past it.
///
/// The brace is consumed unseen. Then, until a `}` or the end of the tokens,
/// the token at the cursor is a key; a `:` after it is consumed if it is
/// there; the value that follows is read and stored under the key, in place
/// of any value stored under it before. A comma after the value leads to the
/// next field; any other token, or none, ends the walk. The cursor ends one
/// past the place where the walk stopped.
pub fn parse_object(tokens: &Vec<String>, cursor: &mut usize) -> (value: Value)
    requires
        readable(object_at(tokens.deep_view(), *old(cursor) as int)),
    ensures
        object_at(tokens.deep_view(), *old(cursor) as int) == Some((value@, *final(cursor) as int)),
    decreases left(tokens.deep_view(), *old(cursor) as int), 0int,
{
    let ghost texts = tokens.deep_view();
    let ghost start = *cursor as int;
    let mut obj = Fields::new();
    proof {
        lemma_members_advance(texts, start + 1, Map::empty());
    }
    *cursor += 1;
    loop
        invariant_except_break
            members_from(texts, start + 1, Map::empty()) == members_from(
                texts,
                *cursor as int,
                obj@,
            ),
            members_from(texts, *cursor as int, obj@) matches Some((_, stop)) && stop < usize::MAX,
        invariant
            texts == tokens.deep_view(),
            start == *old(cursor),
            start < *cursor,
        ensures
            members_from(texts, start + 1, Map::empty()) == Some((obj@, *cursor as int)),
            *cursor < usize::MAX,
        decreases left(texts, *cursor as int),
    {
        let ghost at = *cursor as int;
        let ghost before = obj@;
        proof {
            lemma_members_advance(texts, at, before);
        }
        if *cursor < tokens.len() {
            if is_mark_token(&tokens[*cursor], '}') {
                break;
            } else {
                let key = &tokens[*cursor];
                *cursor += 1;
                if is_mark_token(&tokens[*cursor], ':') {
                    *cursor += 1;
                }
                proof {
                    lemma_value_advances(texts, *cursor as int);
                    let (item, next) = value_at(texts, *cursor as int).unwrap();
                    if next < texts.len() && is_mark(texts[next], ',') {
                        lemma_members_advance(texts, next + 1, before.insert(texts[at], item));
                    }
                }
                let value = parse_value(tokens, cursor);
                obj.insert(key.clone(), value);
                if *cursor < tokens.len() {
                    if is_mark_token(&tokens[*cursor], ',') {
                        *cursor += 1;
                    } else {
                        break;
                    }
                } else {
                    break;
                }
            }
        } else {
            break;
        }
    }
    *cursor += 1;
    Value::Object(obj)
}

/// Where the value that starts at `cursor` ends, if it can be read.
fn value_end(tokens: &Vec<String>, cursor: usize) -> (end: Option<usize>)
    ensures
        match end {
            Some(next) => value_at(tokens.deep_view(), cursor as int) matches Some((_, n)) && n
                == next,
            None => !readable(value_at(tokens.deep_view(), cursor as int)),
        },
    decreases left(tokens.deep_view(), cursor as int), 1int,
{
    if cursor >= tokens.len() {
        return None;
    }
    let current = &tokens[cursor];
    if is_mark_token(current, '{') {
        object_end(tokens, cursor)
    } else if is_mark_token(current, '[') {
        array_end(tokens, cursor)
    } else {
        Some(cursor + 1)
    }
}

/// Where the array whose opening bracket is at `cursor` ends, if it can be
/// read.
fn array_end(tokens: &Vec<String>, cursor: usize) -> (end: Option<usize>)
    requires
        cursor < tokens.len(),
    ensures
        match end {
            Some(next) => array_at(tokens.deep_view(), cursor as int) matches Some((_, n)) && n
                == next,
            None => !readable(array_at(tokens.deep_view(), cursor as int)),
        },
    decreases left(tokens.deep_view(), cursor as int), 0int,
{
    let ghost texts = tokens.deep_view();
    let ghost mut items: Seq<Tree> = Seq::empty();
    let mut at: usize = cursor + 1;
    loop
        invariant_except_break
            elements_from(texts, cursor + 1, Seq::empty()) == elements_from(texts, at as int, items),
        invariant
            texts == tokens.deep_view(),
            cursor < at,
            cursor < tokens.len(),
        ensures
            elements_from(texts, cursor + 1, Seq::empty()) == Some((items, at as int)),
        decreases left(texts, at as int),
    {
        if at < tokens.len() {
            let current = &tokens[at];
            if is_mark_token(current, ']') {
                break;
            } else if is_mark_token(current, ',') {
                at += 1;
            } else {
                proof {
                    lemma_value_advances(texts, at as int);
                }
                match value_end(tokens, at) {
                    Some(next) => {
                        proof {
                            items = items.push(value_at(texts, at as int).unwrap().0);
                        }
                        at = next;
                    },
                    None => {
                        proof {
                            match value_at(texts, at as int) {
                                Some((item, next)) => {
                                    lemma_elements_advance(texts, next, items.push(item));
                                },
                                None => {},
                            }
                        }
                        return None;
                    },
                }
            }
        } else {
            break;
        }
    }
    at.checked_add(1)
}

/// Where the object whose opening brace is at `cursor` ends, if it can be
/// read.
fn object_end(tokens: &Vec<String>, cursor: usize) -> (end: Option<usize>)
    requires
        cursor < tokens.len(),
    ensures
        match end {
            Some(next) => object_at(tokens.deep_view(), cursor as int) matches Some((_, n)) && n
                == next,
            None => !readable(object_at(tokens.deep_view(), cursor as int)),
        },
    decreases left(tokens.deep_view(), cursor as int), 0int,
{
    let ghost texts = tokens.deep_view();
    let ghost mut fields: Map<Seq<char>, Tree> = Map::empty();
    let mut at: usize = cursor + 1;
    loop
        invariant_except_break
            members_from(texts, cursor + 1, Map::empty()) == members_from(texts, at as int, fields),
        invariant
            texts == tokens.deep_view(),
            cursor < at,
            cursor < tokens.len(),
        ensures
            members_from(texts, cursor + 1, Map::empty()) == Some((fields, at as int)),
        decreases left(texts, at as int),
    {
        if at < tokens.len() {
            if is_mark_token(&tokens[at], '}') {
                break;
            } else {
                if at + 1 >= tokens.len() {
                    return None;
                }
                let ghost key = texts[at as int];
                let start: usize = if is_mark_token(&tokens[at + 1], ':') {
                    at + 2
                } else {
                    at + 1
                };
                proof {
                    lemma_value_advances(texts, start as int);
                }
                match value_end(tokens, start) {
                    Some(next) => {
                        proof {
                            fields = fields.insert(key, value_at(texts, start as int).unwrap().0);
                        }
                        if next < tokens.len() {
                            if is_mark_token(&tokens[next], ',') {
                                at = next + 1;
                            } else {
                                at = next;
                                break;
                            }
                        } else {
                            at = next;
                            break;
                        }
                    },
                    None => {
                        proof {
                            match value_at(texts, start as int) {
                                Some((item, next)) => {
                                    if next < texts.len() && is_mark(texts[next], ',') {
                                        lemma_members_advance(
                                            texts,
                                            next + 1,
                                            fields.insert(key, item),
                                        );
                                    }
                                },
                                None => {},
                            }
                        }
                        return None;
                    },
                }
            }
        } else {
            break;
        }
    }
    at.checked_add(1)
}

/// Tokenizes `raw` and reads the value that starts at its first token, or
/// gives `None` where [`parse`] could not be called: a value is owed where no
/// token is left, or the cursor would leave the machine word.
pub fn try_parse(raw: &str) -> (parsed: Option<Value>)
    ensures
        match parsed {
            Some(value) => value_at(tokens_of(raw@), 0) matches Some((tree, _)) && value@ == tree,
            None => !readable(value_at(tokens_of(raw@), 0)),
        },
{
    let tokens = tokenize(raw);
    match value_end(&tokens, 0) {
        Some(_) => {
            let mut cursor: usize = 0;
            Some(parse_value(&tokens, &mut cursor))
        },
        None => None,
    }
}

} // verus!
