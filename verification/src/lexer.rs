//! The tokenizer: splits raw text into structural characters and primitive runs.

use vstd::prelude::*;

verus! {

/// The six characters that always form a token of their own.
pub open spec fn is_structural(c: char) -> bool {
    c == '{' || c == '}' || c == '[' || c == ']' || c == ':' || c == ','
}

/// What the scanner has produced after reading some prefix of the input:
/// the tokens emitted so far and the primitive run still being assembled.
pub struct Scan {
    pub tokens: Seq<Seq<char>>,
    pub buffer: Seq<char>,
}

/// The state before any character has been read.
pub open spec fn start() -> Scan {
    Scan { tokens: Seq::empty(), buffer: Seq::empty() }
}

/// The tokens of `s` once a pending run, if there is one, has been emitted.
pub open spec fn flushed(s: Scan) -> Seq<Seq<char>> {
    if s.buffer.len() > 0 {
        s.tokens.push(s.buffer)
    } else {
        s.tokens
    }
}

/// One step of the scanner on character `c`.
pub open spec fn feed(s: Scan, c: char) -> Scan {
    if is_structural(c) {
        Scan { tokens: flushed(s).push(seq![c]), buffer: Seq::empty() }
    } else if c == '\n' || (c == ' ' && s.buffer.len() == 0) {
        s
    } else {
        Scan { tokens: s.tokens, buffer: s.buffer.push(c) }
    }
}

/// The scanner's state after reading all of `raw`, left to right.
pub open spec fn scan(raw: Seq<char>) -> Scan
    decreases raw.len(),
{
    if raw.len() == 0 {
        start()
    } else {
        feed(scan(raw.drop_last()), raw.last())
    }
}

/// The token sequence of `raw`. A run still pending at the end of the input
/// is not emitted.
pub open spec fn tokens_of(raw: Seq<char>) -> Seq<Seq<char>> {
    scan(raw).tokens
}

/// A primitive run: not empty, not begun by a space, and free of newlines
/// and structural characters.
pub open spec fn is_run(text: Seq<char>) -> bool {
    &&& text.len() > 0
    &&& text[0] != ' '
    &&& forall|i: int| 0 <= i < text.len() ==> !is_structural(#[trigger] text[i]) && text[i] != '\n'
}

/// What a token can be: one structural character, or a primitive run.
pub open spec fn is_token(text: Seq<char>) -> bool {
    (text.len() == 1 && is_structural(text[0])) || is_run(text)
}

/// Every emitted token is a structural character or a primitive run, so no
/// token is empty; the pending run is empty or a primitive run.
pub proof fn lemma_tokens_shaped(raw: Seq<char>)
    ensures
        forall|i: int| 0 <= i < scan(raw).tokens.len() ==> is_token(#[trigger] scan(raw).tokens[i]),
        scan(raw).buffer.len() == 0 || is_run(scan(raw).buffer),
    decreases raw.len(),
{
    if raw.len() > 0 {
        lemma_tokens_shaped(raw.drop_last());
    }
}

/// Tokens and the pending run together hold no more characters than were
/// read; in particular there are no more tokens than characters.
pub proof fn lemma_token_count(raw: Seq<char>)
    ensures
        scan(raw).tokens.len() + scan(raw).buffer.len() <= raw.len(),
        tokens_of(raw).len() <= raw.len(),
    decreases raw.len(),
{
    if raw.len() > 0 {
        lemma_token_count(raw.drop_last());
    }
}

/// Reading more input never takes back a token: the tokens of a text begin
/// the tokens of every text that extends it.
pub proof fn lemma_tokens_grow(read: Seq<char>, more: Seq<char>)
    ensures
        tokens_of(read).is_prefix_of(tokens_of(read + more)),
    decreases more.len(),
{
    if more.len() == 0 {
        assert(read + more =~= read);
    } else {
        lemma_tokens_grow(read, more.drop_last());
        assert((read + more).drop_last() =~= read + more.drop_last());
    }
}

/// Characters that are neither structural nor newlines only extend the
/// pending run, provided the first of them is not a space that would begin
/// the run.
pub proof fn lemma_scan_run(read: Seq<char>, run: Seq<char>)
    requires
        forall|i: int| 0 <= i < run.len() ==> !is_structural(#[trigger] run[i]) && run[i] != '\n',
        run.len() > 0 ==> run[0] != ' ' || scan(read).buffer.len() > 0,
    ensures
        scan(read + run) == (Scan {
            tokens: scan(read).tokens,
            buffer: scan(read).buffer + run,
        }),
    decreases run.len(),
{
    if run.len() == 0 {
        assert(read + run =~= read);
        assert(scan(read).buffer + run =~= scan(read).buffer);
    } else {
        let front = run.drop_last();
        lemma_scan_run(read, front);
        assert((read + run).drop_last() =~= read + front);
        assert((read + run).last() == run.last());
        assert((scan(read).buffer + front).push(run.last()) =~= scan(read).buffer + run);
        if front.len() == 0 {
            assert(scan(read).buffer + front =~= scan(read).buffer);
        } else {
            assert((scan(read).buffer + front)[0] == if scan(read).buffer.len() > 0 {
                scan(read).buffer[0]
            } else {
                front[0]
            });
        }
    }
}

/// A primitive run that begins where no run is pending and that a
/// structural character ends is emitted whole as one token, inner spaces
/// included, followed by the token of that character.
pub proof fn lemma_run_is_one_token(read: Seq<char>, run: Seq<char>, end: char)
    requires
        scan(read).buffer.len() == 0,
        is_run(run),
        is_structural(end),
    ensures
        tokens_of(read + run + seq![end]) == tokens_of(read).push(run).push(seq![end]),
{
    lemma_scan_run(read, run);
    let text = read + run + seq![end];
    assert(text.drop_last() =~= read + run);
    assert(text.last() == end);
    assert(scan(read).buffer + run =~= run);
}

/// Taken on trust from the standard library, which states it and which
/// `vstd` leaves unspecified: `String::push` appends the character `ch` to
/// the end of the string and changes nothing else of it.
pub assume_specification[ std::string::String::push ](s: &mut std::string::String, ch: char)
    ensures
        final(s)@ == old(s)@.push(ch),
;

/// Splits `raw` into its tokens.
///
/// Each of `{ } [ ] : ,` ends the run being assembled and is a token of its
/// own. A newline is dropped, and so is a space that would begin a run; any
/// other character, a space inside a run included, extends the run. A run
/// that no structural character ends is discarded.
pub fn tokenize(raw: &str) -> (tokens: Vec<String>)
    ensures
        tokens.deep_view() == tokens_of(raw@),
        forall|i: int| 0 <= i < tokens.len() ==> is_token(#[trigger] tokens[i]@),
{
    let mut tokens: Vec<String> = Vec::new();
    let mut buffer = String::new();
    assert(tokens.deep_view() =~= start().tokens);
    for current in it: raw.chars()
        invariant
            it.seq() == raw@,
            scan(raw@.take(it.index())) == (Scan { tokens: tokens.deep_view(), buffer: buffer@ }),
    {
        let ghost before = scan(raw@.take(it.index()));
        assert(raw@.take(it.index() + 1).drop_last() == raw@.take(it.index()));
        assert(scan(raw@.take(it.index() + 1)) == feed(before, current));
        if current == '{' || current == '}' || current == '[' || current == ']' || current == ':'
            || current == ',' {
            if !buffer.as_str().is_empty() {
                tokens.push(buffer);
                buffer = String::new();
            }
            assert(tokens.deep_view() =~= flushed(before));
            let mut mark = String::new();
            mark.push(current);
            tokens.push(mark);
            assert(mark@ =~= seq![current]);
            assert(buffer@ =~= Seq::<char>::empty());
            assert(tokens.deep_view() =~= flushed(before).push(seq![current]));
        } else if current == '\n' || (current == ' ' && buffer.as_str().is_empty()) {
        } else {
            buffer.push(current);
        }
    }
    proof {
        assert(raw@.take(raw@.len() as int) == raw@);
        lemma_tokens_shaped(raw@);
        assert forall|i: int| 0 <= i < tokens.len() implies is_token(#[trigger] tokens[i]@) by {
            assert(tokens[i]@ == tokens_of(raw@)[i]);
        }
    }
    tokens
}

} // verus!
