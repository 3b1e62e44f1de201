//! Identifiers put together from a format, fixed fields and a counter.

use vstd::prelude::*;
use vstd::string::*;
use crate::alpha::{alpha, num2alpha};
use crate::decimal::{decimal, num2decimal};
use crate::format::{
    is_name, join, lemma_join_of_split, lemma_split_of_join, split, split_fields, texts,
};

verus! {

/// How the counter is written.
#[allow(non_camel_case_types)]
#[derive(Clone, Copy, Debug, PartialEq, Eq)]
pub enum Strategy {
    /// In decimal digits.
    NUMERIC,
    /// In letters.
    ALPHA,
}

/// Why no identifier was generated.
#[derive(Clone, Copy, Debug, PartialEq, Eq)]
pub enum GenerateError {
    /// The format asks for the counter, and `initial` plus the increment is
    /// more than the counter can hold.
    ArithmeticOverflow,
}

/// The fixed parts of a series of identifiers.
pub struct Identifier<'a> {
    /// Field names with single spaces between them: `prefix`, `category`,
    /// `separator` and `increment`, in the order in which the fields are
    /// written. Any other name stands for nothing.
    pub format: &'a str,
    pub prefix: &'a str,
    pub category: &'a str,
    /// Where the counter starts.
    pub initial: u32,
    pub separator: &'a str,
}

/// What an `Identifier` holds.
pub ghost struct IdentifierView {
    pub format: Seq<char>,
    pub prefix: Seq<char>,
    pub category: Seq<char>,
    pub initial: nat,
    pub separator: Seq<char>,
}

impl<'a> View for Identifier<'a> {
    type V = IdentifierView;

    open spec fn view(&self) -> IdentifierView {
        IdentifierView {
            format: self.format@,
            prefix: self.prefix@,
            category: self.category@,
            initial: self.initial as nat,
            separator: self.separator@,
        }
    }
}

/// Whether `token` names a field.
pub open spec fn is_field_name(token: Seq<char>) -> bool {
    token == "prefix"@ || token == "increment"@ || token == "category"@ || token
        == "separator"@
}

/// The counter `value` as `strategy` writes it.
pub open spec fn counter_text(value: nat, strategy: Strategy) -> Seq<char> {
    match strategy {
        Strategy::NUMERIC => decimal(value),
        Strategy::ALPHA => alpha(value),
    }
}

/// What generating returned, with the text as a sequence of characters.
pub open spec fn text_of(result: Result<String, GenerateError>) -> Result<
    Seq<char>,
    GenerateError,
> {
    match result {
        Ok(text) => Ok(text@),
        Err(error) => Err(error),
    }
}

impl IdentifierView {
    /// What `token` stands for, where `counter` is the counter as written.
    pub open spec fn field_text(self, token: Seq<char>, counter: Seq<char>) -> Seq<char> {
        if token == "prefix"@ {
            self.prefix
        } else if token == "increment"@ {
            counter
        } else if token == "category"@ {
            self.category
        } else if token == "separator"@ {
            self.separator
        } else {
            Seq::empty()
        }
    }

    /// What `tokens` stand for, one after the other.
    pub open spec fn assemble(self, tokens: Seq<Seq<char>>, counter: Seq<char>) -> Seq<char>
        decreases tokens.len(),
    {
        if tokens.len() == 0 {
            Seq::empty()
        } else {
            self.assemble(tokens.drop_last(), counter) + self.field_text(tokens.last(), counter)
        }
    }

    /// Whether the format asks for the counter.
    pub open spec fn counts(self) -> bool {
        split(self.format).contains("increment"@)
    }

    /// Whether the format asks for a counter that is out of range.
    pub open spec fn overflows(self, increment: nat) -> bool {
        self.counts() && self.initial + increment > u32::MAX
    }

    /// The identifier for `increment`.
    pub open spec fn rendered(self, increment: nat, strategy: Strategy) -> Seq<char> {
        self.assemble(split(self.format), counter_text(self.initial + increment, strategy))
    }

    /// What generating gives: the identifier, or the error where the counter
    /// is out of range.
    pub open spec fn outcome(self, increment: nat, strategy: Strategy) -> Result<
        Seq<char>,
        GenerateError,
    > {
        if self.overflows(increment) {
            Err(GenerateError::ArithmeticOverflow)
        } else {
            Ok(self.rendered(increment, strategy))
        }
    }
}

/// A token that names no field adds nothing: without it the other tokens
/// stand for the same text.
pub proof fn lemma_unknown_token_adds_nothing(
    id: IdentifierView,
    tokens: Seq<Seq<char>>,
    i: int,
    counter: Seq<char>,
)
    requires
        0 <= i < tokens.len(),
        !is_field_name(tokens[i]),
    ensures
        id.assemble(tokens.remove(i), counter) == id.assemble(tokens, counter),
    decreases tokens.len(),
{
    if i == tokens.len() - 1 {
        assert(tokens.remove(i) =~= tokens.drop_last());
        assert(id.assemble(tokens, counter) =~= id.assemble(tokens.drop_last(), counter));
    } else {
        lemma_unknown_token_adds_nothing(id, tokens.drop_last(), i, counter);
        assert(tokens.remove(i).drop_last() =~= tokens.drop_last().remove(i));
    }
}

/// A format with a token that names no field gives what the same format
/// without that token gives, the identifier or the error.
pub proof fn lemma_unknown_token_dropped(
    id: IdentifierView,
    i: int,
    increment: nat,
    strategy: Strategy,
)
    requires
        0 <= i < split(id.format).len(),
        !is_field_name(split(id.format)[i]),
    ensures
        (IdentifierView { format: join(split(id.format).remove(i)), ..id }).outcome(
            increment,
            strategy,
        ) == id.outcome(increment, strategy),
{
    let tokens = split(id.format);
    let rest = tokens.remove(i);
    let without = IdentifierView { format: join(rest), ..id };
    let counter = counter_text(id.initial + increment, strategy);
    lemma_join_of_split(id.format);
    lemma_unknown_token_adds_nothing(id, tokens, i, counter);
    assert(without.assemble(rest, counter) == id.assemble(rest, counter)) by {
        lemma_assemble_reads_fields(without, id, rest, counter);
    }
    if rest.len() == 0 {
        let empty = Seq::<char>::empty();
        reveal_strlit("prefix");
        reveal_strlit("increment");
        reveal_strlit("category");
        reveal_strlit("separator");
        assert(split(empty) =~= seq![empty]);
        assert(!is_field_name(empty));
        assert(seq![empty].drop_last() =~= rest);
        assert(without.assemble(seq![empty], counter) =~= without.assemble(rest, counter));
        assert(!seq![empty].contains("increment"@));
        assert(!tokens.contains("increment"@));
    } else {
        assert forall|k: int| 0 <= k < rest.len() implies !(#[trigger] rest[k]).contains(
            ' ',
        ) by {
            if k < i {
                assert(rest[k] == tokens[k]);
            } else {
                assert(rest[k] == tokens[k + 1]);
            }
        }
        lemma_split_of_join(rest);
        if tokens.contains("increment"@) {
            let j = choose|j: int| 0 <= j < tokens.len() && tokens[j] == "increment"@;
            if j < i {
                assert(rest[j] == "increment"@);
            } else {
                assert(rest[j - 1] == "increment"@);
            }
        }
        if rest.contains("increment"@) {
            let j = choose|j: int| 0 <= j < rest.len() && rest[j] == "increment"@;
            if j < i {
                assert(tokens[j] == "increment"@);
            } else {
                assert(tokens[j + 1] == "increment"@);
            }
        }
    }
}

/// What tokens stand for depends on the three fields only, not on the
/// format or on where the counter starts.
pub proof fn lemma_assemble_reads_fields(
    a: IdentifierView,
    b: IdentifierView,
    tokens: Seq<Seq<char>>,
    counter: Seq<char>,
)
    requires
        a.prefix == b.prefix,
        a.category == b.category,
        a.separator == b.separator,
    ensures
        a.assemble(tokens, counter) == b.assemble(tokens, counter),
    decreases tokens.len(),
{
    if tokens.len() > 0 {
        lemma_assemble_reads_fields(a, b, tokens.drop_last(), counter);
    }
}

/// Generating again gives the same again: what is returned is settled by
/// what the configuration holds, the increment and the strategy, so two
/// results that `generate` may return for them are one identifier, or one
/// error.
pub proof fn lemma_generate_repeatable(
    id: Identifier,
    again: Identifier,
    increment: u32,
    strategy: Strategy,
    first: Result<String, GenerateError>,
    second: Result<String, GenerateError>,
)
    requires
        id@ == again@,
        text_of(first) == id@.outcome(increment as nat, strategy),
        text_of(second) == again@.outcome(increment as nat, strategy),
    ensures
        text_of(first) == text_of(second),
        first is Ok <==> second is Ok,
        first is Ok ==> first->Ok_0@ == second->Ok_0@,
{
}

impl<'a> Identifier<'a> {
    /// Writes the identifier for `increment`: the fields that the format
    /// names, in its order, with the counter at `initial + increment`.
    /// Tokens that name no field are skipped. Where the format asks for the
    /// counter and the sum does not fit, nothing is written and the error
    /// is returned.
    pub fn generate(&self, increment: u32, strategy: Strategy) -> (result: Result<
        String,
        GenerateError,
    >)
        ensures
            text_of(result) == self@.outcome(increment as nat, strategy),
    {
        let tokens = split_fields(self.format);
        let ghost all = split(self.format@);
        let ghost counter = counter_text((self.initial + increment) as nat, strategy);
        let mut result = String::new();
        for at in 0..tokens.len()
            invariant
                texts(tokens@) == all,
                all == split(self.format@),
                counter == counter_text((self.initial + increment) as nat, strategy),
                result@ == self@.assemble(all.take(at as int), counter),
                forall|j: int|
                    0 <= j < at && all[j] == "increment"@ ==> self.initial + increment
                        <= u32::MAX,
        {
            let token = &tokens[at];
            proof {
                reveal_strlit("prefix");
                reveal_strlit("increment");
                assert("prefix"@.len() != "increment"@.len());
                assert(all[at as int] == token@);
                assert(all.take(at + 1).drop_last() =~= all.take(at as int));
            }
            if is_name(token, "prefix") {
                result.append(self.prefix);
            } else if is_name(token, "increment") {
                match self.initial.checked_add(increment) {
                    Some(value) => {
                        let text = match strategy {
                            Strategy::NUMERIC => num2decimal(value),
                            Strategy::ALPHA => num2alpha(value),
                        };
                        result.append(text.as_str());
                    },
                    None => {
                        return Err(GenerateError::ArithmeticOverflow);
                    },
                }
            } else if is_name(token, "category") {
                result.append(self.category);
            } else if is_name(token, "separator") {
                result.append(self.separator);
            }
        }
        proof {
            assert(all.take(all.len() as int) =~= all);
        }
        Ok(result)
    }

    /// The identifier for `increment` with the counter in decimal digits.
    pub fn increment_by(&self, increment: u32) -> (result: Result<String, GenerateError>)
        ensures
            text_of(result) == self@.outcome(increment as nat, Strategy::NUMERIC),
    {
        self.generate(increment, Strategy::NUMERIC)
    }

    /// The identifier for `increment` with the counter in letters.
    pub fn increment_alpha_by(&self, increment: u32) -> (result: Result<String, GenerateError>)
        ensures
            text_of(result) == self@.outcome(increment as nat, Strategy::ALPHA),
    {
        self.generate(increment, Strategy::ALPHA)
    }
}

} // verus!
