//! The format of an identifier: field names with single spaces between them.

use vstd::prelude::*;
use vstd::string::*;

verus! {

/// The pieces of `s` between its spaces, in order. Every space ends one
/// piece and starts the next, so a text without spaces is one piece, and
/// two spaces in a row have an empty piece between them.
pub open spec fn split(s: Seq<char>) -> Seq<Seq<char>>
    decreases s.len(),
{
    if s.len() == 0 {
        seq![Seq::empty()]
    } else {
        let before = split(s.drop_last());
        if s.last() == ' ' {
            before.push(Seq::empty())
        } else {
            before.drop_last().push(before.last().push(s.last()))
        }
    }
}

/// There is at least one piece, also in an empty text.
pub proof fn lemma_split_nonempty(s: Seq<char>)
    ensures
        split(s).len() >= 1,
    decreases s.len(),
{
    if s.len() > 0 {
        lemma_split_nonempty(s.drop_last());
    }
}

/// The tokens written one after the other with a single space between each
/// two.
pub open spec fn join(tokens: Seq<Seq<char>>) -> Seq<char>
    decreases tokens.len(),
{
    if tokens.len() == 0 {
        Seq::empty()
    } else if tokens.len() == 1 {
        tokens[0]
    } else {
        join(tokens.drop_last()) + seq![' '] + tokens.last()
    }
}

/// Whether no token holds a space.
pub open spec fn space_free(tokens: Seq<Seq<char>>) -> bool {
    forall|i: int| 0 <= i < tokens.len() ==> !(#[trigger] tokens[i]).contains(' ')
}

/// The pieces of a text hold no space, and joined again they are the text.
pub proof fn lemma_join_of_split(s: Seq<char>)
    ensures
        space_free(split(s)),
        join(split(s)) == s,
    decreases s.len(),
{
    if s.len() == 0 {
        assert(join(split(s)) =~= s);
    } else {
        let rest = s.drop_last();
        let before = split(rest);
        lemma_split_nonempty(rest);
        lemma_join_of_split(rest);
        if s.last() == ' ' {
            let pieces = before.push(Seq::<char>::empty());
            assert(pieces.drop_last() =~= before);
            assert(join(pieces) =~= rest.push(' '));
            assert(rest.push(' ') =~= s);
        } else {
            let grown = before.last().push(s.last());
            let pieces = before.drop_last().push(grown);
            assert forall|k: int| 0 <= k < grown.len() implies grown[k] != ' ' by {
                if k < before.last().len() {
                    assert(before.last().contains(grown[k]));
                }
            }
            assert(pieces.drop_last() =~= before.drop_last());
            if before.len() == 1 {
                assert(join(pieces) =~= rest.push(s.last()));
            } else {
                assert(join(pieces) =~= join(before).push(s.last()));
            }
            assert(rest.push(s.last()) =~= s);
        }
    }
}

/// A text without a space that follows `s` lengthens the last piece of `s`.
pub proof fn lemma_split_append(s: Seq<char>, t: Seq<char>)
    requires
        !t.contains(' '),
    ensures
        split(s + t) == split(s).drop_last().push(split(s).last() + t),
    decreases t.len(),
{
    lemma_split_nonempty(s);
    if t.len() == 0 {
        assert(s + t =~= s);
        assert(split(s).last() + t =~= split(s).last());
        assert(split(s).drop_last().push(split(s).last()) =~= split(s));
    } else {
        let u = t.drop_last();
        assert forall|k: int| 0 <= k < u.len() implies u[k] != ' ' by {
            assert(t[k] == u[k]);
        }
        assert(t.last() == t[t.len() - 1]);
        lemma_split_append(s, u);
        lemma_split_nonempty(s + u);
        assert((s + t).drop_last() =~= s + u);
        assert((split(s).last() + u).push(t.last()) =~= split(s).last() + t);
        assert(split(s + u).drop_last() =~= split(s).drop_last());
    }
}

/// Tokens without spaces, joined, split into themselves.
pub proof fn lemma_split_of_join(tokens: Seq<Seq<char>>)
    requires
        tokens.len() >= 1,
        space_free(tokens),
    ensures
        split(join(tokens)) == tokens,
    decreases tokens.len(),
{
    let empty = Seq::<char>::empty();
    if tokens.len() == 1 {
        lemma_split_append(empty, tokens[0]);
        assert(empty + tokens[0] =~= tokens[0]);
        assert(split(empty) =~= seq![empty]);
        assert(split(empty).drop_last().push(tokens[0]) =~= tokens);
    } else {
        let init = tokens.drop_last();
        lemma_split_of_join(init);
        let head = join(init) + seq![' '];
        assert(head.drop_last() =~= join(init));
        assert(split(head) == init.push(empty));
        lemma_split_append(head, tokens.last());
        assert(empty + tokens.last() =~= tokens.last());
        assert(init.push(empty).drop_last().push(tokens.last()) =~= tokens);
    }
}

/// What a vector of tokens holds: the characters of each, in order.
pub open spec fn texts(tokens: Seq<Vec<char>>) -> Seq<Seq<char>> {
    tokens.map_values(|token: Vec<char>| token@)
}

/// Splits `format` at its spaces.
pub fn split_fields(format: &str) -> (tokens: Vec<Vec<char>>)
    ensures
        texts(tokens@) == split(format@),
{
    let mut tokens: Vec<Vec<char>> = Vec::new();
    let mut current: Vec<char> = Vec::new();
    for c in it: format.chars()
        invariant
            it.seq() == format@,
            texts(tokens@).push(current@) == split(format@.take(it.index())),
    {
        proof {
            let done = format@.take(it.index());
            let next = format@.take(it.index() + 1);
            assert(next.drop_last() =~= done);
            assert(next.last() == c);
            lemma_split_nonempty(done);
        }
        let ghost before = texts(tokens@);
        if c == ' ' {
            tokens.push(current);
            current = Vec::new();
            assert(texts(tokens@) =~= split(format@.take(it.index())));
        } else {
            current.push(c);
            assert(before.push(current@).drop_last() =~= before);
        }
    }
    assert(format@.take(format@.len() as int) =~= format@);
    let ghost before = texts(tokens@);
    tokens.push(current);
    assert(texts(tokens@) =~= before.push(current@));
    tokens
}

/// Whether `token` is exactly `name`.
pub fn is_name(token: &Vec<char>, name: &str) -> (same: bool)
    ensures
        same == (token@ == name@),
{
    let mut at: usize = 0;
    for c in it: name.chars()
        invariant
            it.seq() == name@,
            at == it.index(),
            at <= token.len(),
            token@.take(at as int) == name@.take(at as int),
    {
        if at >= token.len() || token[at] != c {
            return false;
        }
        assert(token@.take(at + 1) =~= token@.take(at as int).push(token@[at as int]));
        assert(name@.take(at + 1) =~= name@.take(at as int).push(name@[at as int]));
        at += 1;
    }
    assert(name@.take(at as int) =~= name@);
    assert(at == token.len() ==> token@.take(at as int) =~= token@);
    at == token.len()
}

} // verus!
