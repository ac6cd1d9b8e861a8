//! Quoting of SQL identifiers and literals, for text that cannot be bound as a
//! parameter.
use vstd::prelude::*;
use vstd::string::StrSliceExecFns;

use crate::text::concat3;

verus! {

/// Text with every mark doubled.
pub open spec fn doubled(text: Seq<char>, mark: char) -> Seq<char>
    decreases text.len(),
{
    if text.len() == 0 {
        Seq::empty()
    } else if text.last() == mark {
        doubled(text.drop_last(), mark).push(mark).push(mark)
    } else {
        doubled(text.drop_last(), mark).push(text.last())
    }
}

/// Text between marks, with every mark inside doubled.
pub open spec fn quoted(text: Seq<char>, mark: char) -> Seq<char> {
    seq![mark] + doubled(text, mark) + seq![mark]
}

/// What doubled text stands for: each mark skips the character after it.
pub open spec fn undoubled(text: Seq<char>, mark: char) -> Seq<char>
    decreases text.len(),
{
    if text.len() == 0 {
        Seq::empty()
    } else if text.last() == mark && text.len() >= 2 {
        undoubled(text.take(text.len() - 2), mark).push(mark)
    } else {
        undoubled(text.drop_last(), mark).push(text.last())
    }
}

/// Doubling marks loses nothing: different texts never quote alike.
pub proof fn lemma_quoting_reverses(text: Seq<char>, mark: char)
    ensures
        undoubled(quoted(text, mark).subrange(1, quoted(text, mark).len() - 1), mark) == text,
{
    let inside = quoted(text, mark).subrange(1, quoted(text, mark).len() - 1);
    assert(inside =~= doubled(text, mark));
    lemma_undoubled(text, mark);
}

proof fn lemma_undoubled(text: Seq<char>, mark: char)
    ensures
        undoubled(doubled(text, mark), mark) == text,
    decreases text.len(),
{
    let twice = doubled(text, mark);
    if text.len() > 0 {
        let before = doubled(text.drop_last(), mark);
        lemma_undoubled(text.drop_last(), mark);
        if text.last() == mark {
            assert(twice.take(twice.len() - 2) =~= before);
        } else {
            assert(twice.drop_last() =~= before);
        }
        assert(text.drop_last().push(text.last()) =~= text);
    }
}

/// Text with every mark doubled.
fn double_marks(text: &str, mark: char) -> (twice: String)
    ensures
        twice@ == doubled(text@, mark),
{
    let mut twice: String = String::new();
    let len: usize = text.unicode_len();
    for i in 0..len
        invariant
            len == text@.len(),
            twice@ == doubled(text@.take(i as int), mark),
    {
        let next: &str = text.substring_char(i, i + 1);
        let ghost before = twice@;
        twice.append(next);
        if text.get_char(i) == mark {
            twice.append(next);
        }
        proof {
            assert(text@.take(i + 1).drop_last() =~= text@.take(i as int));
            assert(next@ =~= seq![text@[i as int]]);
            assert(before + next@ =~= before.push(text@[i as int]));
            assert(before + next@ + next@ =~= before.push(text@[i as int]).push(text@[i as int]));
        }
    }
    assert(text@.take(len as int) =~= text@);
    twice
}

/// Quote a PostgreSQL identifier.
pub fn quote_ident(identifier: &str) -> (text: String)
    ensures
        text@ == quoted(identifier@, '"'),
{
    let text: String = concat3("\"", double_marks(identifier, '"').as_str(), "\"");
    proof {
        reveal_strlit("\"");
        assert(text@ =~= quoted(identifier@, '"'));
    }
    text
}

/// Quote a PostgreSQL string literal.
pub fn quote_literal(value: &str) -> (text: String)
    ensures
        text@ == quoted(value@, '\''),
{
    let text: String = concat3("'", double_marks(value, '\'').as_str(), "'");
    proof {
        reveal_strlit("'");
        assert(text@ =~= quoted(value@, '\''));
    }
    text
}

} // verus!
