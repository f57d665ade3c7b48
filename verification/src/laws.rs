//! What holds of every template and every list of declared names.

use crate::template::{
    distinct_names, first_fault, first_index, has_slot, lemma_distinct_names,
    lemma_distinct_push, lemma_first_index_contains, lemma_first_index_from,
    lemma_name_len_bound, lemma_slots_are_well_formed, lex, lex_from, name_len, names_token,
    position_of, render, rewrite_spec, slot_names, slots_of, token_fault, token_text, Fault,
    Token, MARKER, SIGIL,
};
use crate::text::{decimal, lemma_char_is_scalar_value, lemma_decimal_is_digits};
use vstd::prelude::*;

verus! {

/// How often `c` occurs in `s`.
pub open spec fn occurrences(s: Seq<char>, c: char) -> nat
    decreases s.len(),
{
    if s.len() == 0 {
        0
    } else {
        occurrences(s.drop_last(), c) + if s.last() == c {
            1nat
        } else {
            0nat
        }
    }
}

/// How many of `tokens` are doubled sigils.
pub open spec fn escapes(tokens: Seq<Token>) -> nat
    decreases tokens.len(),
{
    if tokens.len() == 0 {
        0
    } else {
        escapes(tokens.drop_last()) + if tokens.last() == Token::Escape {
            1nat
        } else {
            0nat
        }
    }
}

/// Whether no token is a sigil left dangling.
pub open spec fn no_dangling(tokens: Seq<Token>) -> bool {
    forall|k: int| 0 <= k < tokens.len() ==> #[trigger] tokens[k] != Token::Dangling
}

/// Whether every name among `tokens` is declared.
pub open spec fn all_declared(tokens: Seq<Token>, declared: Seq<Seq<char>>) -> bool {
    forall|name: Seq<char>| #[trigger]
        names_token(tokens, name) ==> first_index(declared, name) is Some
}

/// Occurrences add up over a concatenation.
pub proof fn lemma_occurrences_concat(a: Seq<char>, b: Seq<char>, c: char)
    ensures
        occurrences(a + b, c) == occurrences(a, c) + occurrences(b, c),
    decreases b.len(),
{
    if b.len() == 0 {
        assert(a + b =~= a);
    } else {
        assert((a + b).drop_last() =~= a + b.drop_last());
        lemma_occurrences_concat(a, b.drop_last(), c);
    }
}

/// A character that is nowhere in `s` occurs no times in it.
pub proof fn lemma_occurrences_none(s: Seq<char>, c: char)
    requires
        forall|i: int| 0 <= i < s.len() ==> s[i] != c,
    ensures
        occurrences(s, c) == 0,
    decreases s.len(),
{
    if s.len() > 0 {
        lemma_occurrences_none(s.drop_last(), c);
    }
}

/// The lexer's tokens: a text token never holds the sigil, a name is never
/// empty and holds name characters only, and a dangling sigil ends the scan.
pub proof fn lemma_lex_shape(t: Seq<char>, i: int)
    requires
        0 <= i,
    ensures
        forall|k: int|
            0 <= k < lex_from(t, i).len() ==> match #[trigger] lex_from(t, i)[k] {
                Token::Text(c) => c != SIGIL,
                Token::Escape => true,
                Token::Name(name) => name.len() > 0 && forall|j: int|
                    0 <= j < name.len() ==> crate::text::is_name_char(#[trigger] name[j]),
                Token::Dangling => k == lex_from(t, i).len() - 1,
            },
    decreases t.len() - i,
{
    let tokens = lex_from(t, i);
    if i >= t.len() {
    } else if t[i] != SIGIL {
        lemma_char_is_scalar_value(t[i]);
        lemma_lex_shape(t, i + 1);
        let rest = lex_from(t, i + 1);
        assert forall|k: int| 0 <= k < tokens.len() implies match #[trigger] tokens[k] {
            Token::Text(c) => c != SIGIL,
            Token::Escape => true,
            Token::Name(name) => name.len() > 0 && forall|j: int|
                0 <= j < name.len() ==> crate::text::is_name_char(#[trigger] name[j]),
            Token::Dangling => k == tokens.len() - 1,
        } by {
            if k > 0 {
                assert(tokens[k] == rest[k - 1]);
            }
        }
    } else if i + 1 < t.len() && t[i + 1] == SIGIL {
        lemma_lex_shape(t, i + 2);
        let rest = lex_from(t, i + 2);
        assert forall|k: int| 0 <= k < tokens.len() implies match #[trigger] tokens[k] {
            Token::Text(c) => c != SIGIL,
            Token::Escape => true,
            Token::Name(name) => name.len() > 0 && forall|j: int|
                0 <= j < name.len() ==> crate::text::is_name_char(#[trigger] name[j]),
            Token::Dangling => k == tokens.len() - 1,
        } by {
            if k > 0 {
                assert(tokens[k] == rest[k - 1]);
            }
        }
    } else {
        let n = name_len(t, i + 1);
        lemma_name_len_bound(t, i + 1);
        if n > 0 {
            lemma_lex_shape(t, i + 1 + n);
            let rest = lex_from(t, i + 1 + n);
            let name = t.subrange(i + 1, i + 1 + n);
            assert forall|k: int| 0 <= k < tokens.len() implies match #[trigger] tokens[k] {
                Token::Text(c) => c != SIGIL,
                Token::Escape => true,
                Token::Name(name) => name.len() > 0 && forall|j: int|
                    0 <= j < name.len() ==> crate::text::is_name_char(#[trigger] name[j]),
                Token::Dangling => k == tokens.len() - 1,
            } by {
                if k > 0 {
                    assert(tokens[k] == rest[k - 1]);
                } else {
                    assert(tokens[0] == Token::Name(name));
                    assert forall|j: int| 0 <= j < name.len() implies crate::text::is_name_char(
                        #[trigger] name[j],
                    ) by {
                        assert(name[j] == t[i + 1 + j]);
                    }
                }
            }
        }
    }
}

/// The sigils of the rewritten SQL are the doubled sigils of the template,
/// one for each: no other token puts a sigil into the SQL.
pub proof fn lemma_sigils_are_escapes(template: Seq<char>)
    ensures
        occurrences(render(lex(template), distinct_names(lex(template))), SIGIL) == escapes(
            lex(template),
        ),
{
    lemma_lex_shape(template, 0);
    lemma_render_sigils(lex(template), distinct_names(lex(template)));
}

proof fn lemma_render_sigils(tokens: Seq<Token>, order: Seq<Seq<char>>)
    requires
        forall|k: int|
            0 <= k < tokens.len() ==> (#[trigger] tokens[k] matches Token::Text(c) ==> c != SIGIL),
    ensures
        occurrences(render(tokens, order), SIGIL) == escapes(tokens),
    decreases tokens.len(),
{
    if tokens.len() > 0 {
        let before = tokens.drop_last();
        let last = tokens.last();
        let text = token_text(last, order);
        assert forall|k: int| 0 <= k < before.len() implies (#[trigger] before[k] matches Token::Text(
            c,
        ) ==> c != SIGIL) by {
            assert(before[k] == tokens[k]);
        }
        lemma_render_sigils(before, order);
        lemma_occurrences_concat(render(before, order), text, SIGIL);
        match last {
            Token::Text(c) => {
                assert(tokens[tokens.len() - 1] == last);
                lemma_occurrences_none(text, SIGIL);
            },
            Token::Escape => {
                assert(text.drop_last() =~= Seq::<char>::empty());
                assert(occurrences(text.drop_last(), SIGIL) == 0);
            },
            Token::Name(name) => {
                let numeral = decimal(position_of(order, name) as nat);
                lemma_decimal_is_digits(position_of(order, name) as nat);
                assert forall|i: int| 0 <= i < text.len() implies text[i] != SIGIL by {
                    if i > 0 {
                        assert(text[i] == numeral[i - 1]);
                    }
                }
                lemma_occurrences_none(text, SIGIL);
            },
            Token::Dangling => {
                lemma_occurrences_none(text, SIGIL);
            },
        }
    }
}

/// The first fault is that of the first faulty token; there is none only
/// where no token is faulty.
pub proof fn lemma_first_fault(tokens: Seq<Token>, declared: Seq<Seq<char>>)
    ensures
        match first_fault(tokens, declared) {
            Some(fault) => exists|k: int|
                {
                    &&& 0 <= k < tokens.len()
                    &&& #[trigger] token_fault(tokens[k], declared) == Some(fault)
                    &&& forall|j: int|
                        0 <= j < k ==> #[trigger] token_fault(tokens[j], declared) is None
                },
            None => forall|k: int|
                0 <= k < tokens.len() ==> #[trigger] token_fault(tokens[k], declared) is None,
        },
    decreases tokens.len(),
{
    if tokens.len() > 0 {
        let rest = tokens.drop_first();
        lemma_first_fault(rest, declared);
        match token_fault(tokens[0], declared) {
            Some(fault) => {
                assert(token_fault(tokens[0], declared) == Some(fault));
            },
            None => {
                match first_fault(rest, declared) {
                    Some(fault) => {
                        let k = choose|k: int|
                            {
                                &&& 0 <= k < rest.len()
                                &&& #[trigger] token_fault(rest[k], declared) == Some(fault)
                                &&& forall|j: int|
                                    0 <= j < k ==> #[trigger] token_fault(rest[j], declared) is None
                            };
                        assert(tokens[k + 1] == rest[k]);
                        assert forall|j: int| 0 <= j < k + 1 implies #[trigger] token_fault(
                            tokens[j],
                            declared,
                        ) is None by {
                            if j > 0 {
                                assert(tokens[j] == rest[j - 1]);
                            }
                        }
                        assert(token_fault(tokens[k + 1], declared) == Some(fault));
                    },
                    None => {
                        assert forall|k: int| 0 <= k < tokens.len() implies #[trigger] token_fault(
                            tokens[k],
                            declared,
                        ) is None by {
                            if k > 0 {
                                assert(tokens[k] == rest[k - 1]);
                            }
                        }
                    },
                }
            },
        }
    }
}

/// A template is rewritten exactly where none of its sigils is left dangling
/// and each of its placeholders is declared.
pub proof fn lemma_rewritten_iff_well_formed(template: Seq<char>, declared: Seq<Seq<char>>)
    ensures
        rewrite_spec(template, declared) is Ok <==> no_dangling(lex(template)) && all_declared(
            lex(template),
            declared,
        ),
{
    let tokens = lex(template);
    lemma_first_fault(tokens, declared);
    if no_dangling(tokens) && all_declared(tokens, declared) {
        if first_fault(tokens, declared) is Some {
            let fault = first_fault(tokens, declared).unwrap();
            let k = choose|k: int|
                0 <= k < tokens.len() && #[trigger] token_fault(tokens[k], declared) == Some(fault);
            match tokens[k] {
                Token::Name(name) => {
                    assert(names_token(tokens, name));
                },
                _ => {},
            }
        }
    }
    if rewrite_spec(template, declared) is Ok {
        assert forall|k: int| 0 <= k < tokens.len() implies #[trigger] tokens[k]
            != Token::Dangling by {
            assert(token_fault(tokens[k], declared) is None);
        }
        assert forall|name: Seq<char>| #[trigger] names_token(tokens, name) implies first_index(
            declared,
            name,
        ) is Some by {
            let k = choose|k: int| 0 <= k < tokens.len() && #[trigger] tokens[k] == Token::Name(name);
            assert(token_fault(tokens[k], declared) is None);
        }
    }
}

/// A template whose placeholders are all declared, and none of whose sigils
/// is left dangling, is rewritten, and the only sigils of the rewritten SQL are
/// those of its doubled sigils, one for each.
pub proof fn lemma_declared_template_is_rewritten(template: Seq<char>, declared: Seq<Seq<char>>)
    requires
        no_dangling(lex(template)),
        all_declared(lex(template), declared),
    ensures
        rewrite_spec(template, declared) is Ok,
        occurrences(rewrite_spec(template, declared)->Ok_0.sql, SIGIL) == escapes(
            lex(template),
        ),
{
    lemma_rewritten_iff_well_formed(template, declared);
    lemma_sigils_are_escapes(template);
}

/// A template with a placeholder that is not declared is refused for an
/// undeclared placeholder of its own, never rewritten without it.
pub proof fn lemma_unknown_placeholder_is_refused(
    template: Seq<char>,
    declared: Seq<Seq<char>>,
    name: Seq<char>,
)
    requires
        names_token(lex(template), name),
        first_index(declared, name) is None,
    ensures
        match rewrite_spec(template, declared) {
            Err(Fault::UnknownPlaceholder(missing)) => names_token(lex(template), missing)
                && first_index(declared, missing) is None,
            _ => false,
        },
{
    let tokens = lex(template);
    lemma_first_fault(tokens, declared);
    lemma_lex_shape(template, 0);
    let at = choose|k: int| 0 <= k < tokens.len() && #[trigger] tokens[k] == Token::Name(name);
    assert(token_fault(tokens[at], declared) is Some);
    let fault = first_fault(tokens, declared).unwrap();
    let k = choose|k: int|
        {
            &&& 0 <= k < tokens.len()
            &&& #[trigger] token_fault(tokens[k], declared) == Some(fault)
            &&& forall|j: int| 0 <= j < k ==> #[trigger] token_fault(tokens[j], declared) is None
        };
    assert(k <= at);
    match tokens[k] {
        Token::Name(missing) => {
            assert(names_token(tokens, missing));
        },
        _ => {},
    }
}

/// Running the scanner twice on one template and one list of declared names
/// gives the same SQL and the same table, or the same refusal.
pub proof fn lemma_same_input_same_outcome(
    template: Seq<char>,
    declared: Seq<Seq<char>>,
    first: Result<crate::numberify::Rewritten, crate::numberify::TemplateError>,
    second: Result<crate::numberify::Rewritten, crate::numberify::TemplateError>,
)
    requires
        crate::numberify::outcome(first) == rewrite_spec(template, declared),
        crate::numberify::outcome(second) == rewrite_spec(template, declared),
    ensures
        crate::numberify::outcome(first) == crate::numberify::outcome(second),
{
}

/// A placeholder that a template uses several times has one line in the table
/// and one position, and each of its uses is rewritten to the marker of that
/// position. The lines are those of the placeholders and of nothing else, and
/// their positions count up from 1 without a gap.
pub proof fn lemma_each_name_has_one_slot(template: Seq<char>, declared: Seq<Seq<char>>)
    requires
        rewrite_spec(template, declared) is Ok,
    ensures
        ({
            let tokens = lex(template);
            let slots = rewrite_spec(template, declared)->Ok_0.table.slots;
            &&& forall|i: int, j: int|
                0 <= i < j < slots.len() ==> (#[trigger] slots[i]).name != (#[trigger] slots[j]).name
            &&& forall|name: Seq<char>| #[trigger]
                names_token(tokens, name) <==> has_slot(slots, name)
            &&& forall|i: int|
                0 <= i < slots.len() ==> {
                    let slot = #[trigger] slots[i];
                    &&& slot.position == i + 1
                    &&& first_index(declared, slot.name) is Some
                    &&& token_text(Token::Name(slot.name), distinct_names(tokens)) == seq![MARKER]
                        + decimal(slot.position as nat)
                }
        }),
{
    let tokens = lex(template);
    let order = distinct_names(tokens);
    let slots = slots_of(tokens);
    lemma_distinct_names(tokens);
    lemma_slots_are_well_formed(tokens);
    lemma_rewritten_iff_well_formed(template, declared);
    assert forall|name: Seq<char>| #[trigger] names_token(tokens, name) <==> has_slot(
        slots,
        name,
    ) by {
        if names_token(tokens, name) {
            let at = choose|at: int| 0 <= at < order.len() && order[at] == name;
            assert(slots[at].name == name);
        }
        if has_slot(slots, name) {
            let k = choose|k: int| 0 <= k < slots.len() && #[trigger] slots[k].name == name;
            assert(names_token(tokens, order[k]));
        }
    }
    assert forall|i: int| 0 <= i < slots.len() implies {
        let slot = #[trigger] slots[i];
        &&& slot.position == i + 1
        &&& first_index(declared, slot.name) is Some
        &&& token_text(Token::Name(slot.name), order) == seq![MARKER] + decimal(
            slot.position as nat,
        )
    } by {
        assert(names_token(tokens, order[i]));
        lemma_first_index_from(order, order[i], 0);
    }
}

/// The table of a rewritten template is well formed.
pub proof fn lemma_table_is_well_formed(template: Seq<char>, declared: Seq<Seq<char>>)
    requires
        rewrite_spec(template, declared) is Ok,
    ensures
        rewrite_spec(template, declared)->Ok_0.table.wf(),
{
    lemma_slots_are_well_formed(lex(template));
}

/// The names of a table stand in order of first appearance: the names among
/// the first `count` tokens are the first names of the table.
pub proof fn lemma_names_stand_in_order_of_first_appearance(tokens: Seq<Token>, count: int)
    requires
        0 <= count <= tokens.len(),
    ensures
        distinct_names(tokens.subrange(0, count)).len() <= distinct_names(tokens).len(),
        distinct_names(tokens.subrange(0, count)) == distinct_names(tokens).subrange(
            0,
            distinct_names(tokens.subrange(0, count)).len() as int,
        ),
    decreases tokens.len() - count,
{
    let order = distinct_names(tokens);
    if count == tokens.len() {
        assert(tokens.subrange(0, count) =~= tokens);
        assert(order.subrange(0, order.len() as int) =~= order);
    } else {
        let before = tokens.drop_last();
        let earlier = distinct_names(before);
        lemma_names_stand_in_order_of_first_appearance(before, count);
        assert(before.subrange(0, count) =~= tokens.subrange(0, count));
        let first = distinct_names(tokens.subrange(0, count));
        assert(earlier =~= order.subrange(0, earlier.len() as int));
        assert(first =~= order.subrange(0, first.len() as int));
    }
}

/// What a template is rewritten to does not depend on which names are
/// declared, nor on their order, as long as it is rewritten at all.
pub proof fn lemma_rewriting_follows_the_template(
    template: Seq<char>,
    first: Seq<Seq<char>>,
    second: Seq<Seq<char>>,
)
    requires
        rewrite_spec(template, first) is Ok,
        rewrite_spec(template, second) is Ok,
    ensures
        rewrite_spec(template, first) == rewrite_spec(template, second),
{
}

/// A doubled sigil that the scan comes to is one token. It puts exactly one
/// sigil into the SQL, is never a fault, and adds no line to the table.
pub proof fn lemma_escape_is_one_sigil(
    template: Seq<char>,
    i: int,
    tokens: Seq<Token>,
    declared: Seq<Seq<char>>,
)
    requires
        0 <= i,
        i + 1 < template.len(),
        template[i] == SIGIL,
        template[i + 1] == SIGIL,
    ensures
        lex_from(template, i) == seq![Token::Escape] + lex_from(template, i + 2),
        distinct_names(tokens.push(Token::Escape)) == distinct_names(tokens),
        slots_of(tokens.push(Token::Escape)) == slots_of(tokens),
        render(tokens.push(Token::Escape), distinct_names(tokens.push(Token::Escape))) == render(
            tokens,
            distinct_names(tokens),
        ).push(SIGIL),
        token_fault(Token::Escape, declared) is None,
{
    let order = distinct_names(tokens);
    lemma_distinct_push(tokens, Token::Escape);
    assert(tokens.push(Token::Escape).drop_last() =~= tokens);
    assert(render(tokens, order) + seq![SIGIL] =~= render(tokens, order).push(SIGIL));
}

/// A run of name characters is the same in a longer text, if the text goes on
/// with a character that can stand in no name.
pub proof fn lemma_name_len_in_longer_text(a: Seq<char>, t: Seq<char>, i: int)
    requires
        0 <= i <= a.len() <= t.len(),
        t.subrange(0, a.len() as int) == a,
        a.len() < t.len() ==> !crate::text::is_name_char(t[a.len() as int]),
    ensures
        name_len(t, i) == name_len(a, i),
    decreases a.len() - i,
{
    if i < a.len() {
        assert(t[i] == t.subrange(0, a.len() as int)[i]);
        if crate::text::is_name_char(a[i]) {
            lemma_name_len_in_longer_text(a, t, i + 1);
        }
    }
}

/// A run of name characters is the same behind any text.
pub proof fn lemma_name_len_behind(before: Seq<char>, b: Seq<char>, j: int)
    requires
        0 <= j <= b.len(),
    ensures
        name_len(before + b, before.len() + j) == name_len(b, j),
    decreases b.len() - j,
{
    let t = before + b;
    if j < b.len() {
        assert(t[before.len() + j] == b[j]);
        if crate::text::is_name_char(b[j]) {
            lemma_name_len_behind(before, b, j + 1);
        }
    }
}

/// The tokens of a text are the same behind any text that the scan has left
/// behind.
pub proof fn lemma_lex_behind(before: Seq<char>, b: Seq<char>, j: int)
    requires
        0 <= j <= b.len(),
    ensures
        lex_from(before + b, before.len() + j) == lex_from(b, j),
    decreases b.len() - j,
{
    let t = before + b;
    let at = before.len() + j;
    if j < b.len() {
        assert(t[at] == b[j]);
        lemma_char_is_scalar_value(b[j]);
        if b[j] != SIGIL {
            lemma_lex_behind(before, b, j + 1);
        } else if j + 1 < b.len() && b[j + 1] == SIGIL {
            assert(t[at + 1] == b[j + 1]);
            lemma_lex_behind(before, b, j + 2);
        } else {
            if j + 1 < b.len() {
                assert(t[at + 1] == b[j + 1]);
            }
            lemma_name_len_behind(before, b, j + 1);
            lemma_name_len_bound(b, j + 1);
            let n = name_len(b, j + 1);
            if n > 0 {
                assert(t.subrange(at + 1, at + 1 + n) =~= b.subrange(j + 1, j + 1 + n));
                lemma_lex_behind(before, b, j + 1 + n);
            }
        }
    }
}

/// The tokens of a text stay what they are when the text goes on with a
/// sigil, as long as none of its own sigils is left dangling.
pub proof fn lemma_lex_before_a_sigil(a: Seq<char>, t: Seq<char>, i: int)
    requires
        0 <= i <= a.len() < t.len(),
        t.subrange(0, a.len() as int) == a,
        t[a.len() as int] == SIGIL,
        no_dangling(lex_from(a, i)),
    ensures
        lex_from(t, i) == lex_from(a, i) + lex_from(t, a.len() as int),
    decreases a.len() - i,
{
    let tokens = lex_from(a, i);
    let behind = lex_from(t, a.len() as int);
    if i == a.len() {
        assert(tokens + behind =~= behind);
    } else {
        assert(t[i] == t.subrange(0, a.len() as int)[i]);
        lemma_char_is_scalar_value(a[i]);
        if a[i] != SIGIL {
            let rest = lex_from(a, i + 1);
            assert forall|k: int| 0 <= k < rest.len() implies #[trigger] rest[k]
                != Token::Dangling by {
                assert(tokens[k + 1] == rest[k]);
            }
            lemma_lex_before_a_sigil(a, t, i + 1);
            assert((seq![Token::Text(a[i])] + rest) + behind =~= seq![Token::Text(a[i])] + (rest
                + behind));
        } else if i + 1 < a.len() && a[i + 1] == SIGIL {
            assert(t[i + 1] == t.subrange(0, a.len() as int)[i + 1]);
            let rest = lex_from(a, i + 2);
            assert forall|k: int| 0 <= k < rest.len() implies #[trigger] rest[k]
                != Token::Dangling by {
                assert(tokens[k + 1] == rest[k]);
            }
            lemma_lex_before_a_sigil(a, t, i + 2);
            assert((seq![Token::Escape] + rest) + behind =~= seq![Token::Escape] + (rest + behind));
        } else {
            let n = name_len(a, i + 1);
            lemma_name_len_bound(a, i + 1);
            lemma_name_len_in_longer_text(a, t, i + 1);
            if n == 0 {
                assert(tokens[0] == Token::Dangling);
            } else {
                assert(t[i + 1] == t.subrange(0, a.len() as int)[i + 1]);
                let name = a.subrange(i + 1, i + 1 + n);
                assert forall|k: int| 0 <= k < n implies #[trigger] t.subrange(i + 1, i + 1 + n)[k]
                    == name[k] by {
                    assert(t[i + 1 + k] == t.subrange(0, a.len() as int)[i + 1 + k]);
                }
                assert(t.subrange(i + 1, i + 1 + n) =~= name);
                let rest = lex_from(a, i + 1 + n);
                assert forall|k: int| 0 <= k < rest.len() implies #[trigger] rest[k]
                    != Token::Dangling by {
                    assert(tokens[k + 1] == rest[k]);
                }
                lemma_lex_before_a_sigil(a, t, i + 1 + n);
                assert((seq![Token::Name(name)] + rest) + behind =~= seq![Token::Name(name)] + (rest
                    + behind));
            }
        }
    }
}

/// A doubled sigil between two texts is one token between their tokens.
pub proof fn lemma_lex_around_an_escape(a: Seq<char>, b: Seq<char>)
    requires
        no_dangling(lex(a)),
    ensures
        lex(a + seq![SIGIL, SIGIL] + b) == lex(a) + seq![Token::Escape] + lex(b),
{
    let before = a + seq![SIGIL, SIGIL];
    let t = before + b;
    let at = a.len() as int;
    assert(t.subrange(0, at) =~= a);
    assert(t[at] == SIGIL && t[at + 1] == SIGIL);
    lemma_lex_before_a_sigil(a, t, 0);
    lemma_lex_behind(before, b, 0);
    assert(lex_from(t, at) == seq![Token::Escape] + lex_from(t, at + 2));
    assert(lex(a) + (seq![Token::Escape] + lex(b)) =~= lex(a) + seq![Token::Escape] + lex(b));
}

/// Rendering goes run by run.
pub proof fn lemma_render_concat(first: Seq<Token>, second: Seq<Token>, order: Seq<Seq<char>>)
    ensures
        render(first + second, order) == render(first, order) + render(second, order),
    decreases second.len(),
{
    if second.len() == 0 {
        assert(first + second =~= first);
        assert(render(first, order) + render(second, order) =~= render(first, order));
    } else {
        assert((first + second).drop_last() =~= first + second.drop_last());
        lemma_render_concat(first, second.drop_last(), order);
        assert((render(first, order) + render(second.drop_last(), order)) + token_text(
            second.last(),
            order,
        ) =~= render(first, order) + (render(second.drop_last(), order) + token_text(
            second.last(),
            order,
        )));
    }
}

/// A doubled sigil between two runs of tokens adds no name.
pub proof fn lemma_escape_adds_no_name(first: Seq<Token>, second: Seq<Token>)
    ensures
        distinct_names(first + seq![Token::Escape] + second) == distinct_names(first + second),
    decreases second.len(),
{
    let with = first + seq![Token::Escape] + second;
    let without = first + second;
    if second.len() == 0 {
        assert(with =~= first.push(Token::Escape));
        assert(without =~= first);
        lemma_distinct_push(first, Token::Escape);
    } else {
        assert(with.drop_last() =~= first + seq![Token::Escape] + second.drop_last());
        assert(without.drop_last() =~= first + second.drop_last());
        lemma_escape_adds_no_name(first, second.drop_last());
    }
}

/// Behind tokens without a name, the names are those of the tokens that
/// follow.
pub proof fn lemma_names_behind_no_names(first: Seq<Token>, second: Seq<Token>)
    requires
        distinct_names(first).len() == 0,
    ensures
        distinct_names(first + second) == distinct_names(second),
    decreases second.len(),
{
    if second.len() == 0 {
        assert(first + second =~= first);
        assert(distinct_names(first) =~= distinct_names(second));
    } else {
        assert((first + second).drop_last() =~= first + second.drop_last());
        lemma_names_behind_no_names(first, second.drop_last());
    }
}

/// A name that stands in the first part of a list is found there.
pub proof fn lemma_first_index_in_prefix(part: Seq<Seq<char>>, whole: Seq<Seq<char>>, name: Seq<char>)
    requires
        part.len() <= whole.len(),
        whole.subrange(0, part.len() as int) == part,
        part.contains(name),
    ensures
        first_index(whole, name) == first_index(part, name),
{
    lemma_first_index_contains(part, name);
    lemma_first_index_from(part, name, 0);
    lemma_first_index_from(whole, name, 0);
    let k = first_index(part, name).unwrap();
    assert forall|j: int| 0 <= j < part.len() implies whole[j] == part[j] by {
        assert(whole.subrange(0, part.len() as int)[j] == whole[j]);
    }
    assert(whole[k] == name);
    match first_index(whole, name) {
        Some(m) => {
            if m < k {
                assert(part[m] == name);
            }
        },
        None => {},
    }
}

/// Tokens are rendered alike under two lists in which each of their names
/// has the same place.
pub proof fn lemma_render_agrees(tokens: Seq<Token>, first: Seq<Seq<char>>, second: Seq<Seq<char>>)
    requires
        forall|name: Seq<char>| #[trigger]
            names_token(tokens, name) ==> first_index(first, name) == first_index(second, name),
    ensures
        render(tokens, first) == render(tokens, second),
    decreases tokens.len(),
{
    if tokens.len() > 0 {
        let before = tokens.drop_last();
        assert forall|name: Seq<char>| #[trigger] names_token(before, name) implies first_index(
            first,
            name,
        ) == first_index(second, name) by {
            let k = choose|k: int| 0 <= k < before.len() && #[trigger] before[k] == Token::Name(name);
            assert(tokens[k] == Token::Name(name));
            assert(names_token(tokens, name));
        }
        lemma_render_agrees(before, first, second);
        if let Token::Name(name) = tokens.last() {
            assert(tokens[tokens.len() - 1] == Token::Name(name));
            assert(names_token(tokens, name));
        }
    }
}

/// Whether each placeholder among `tokens` has in `first` the place it has in
/// `second`.
pub open spec fn same_places(tokens: Seq<Token>, first: Seq<Seq<char>>, second: Seq<Seq<char>>) -> bool {
    forall|name: Seq<char>| #[trigger]
        names_token(tokens, name) ==> first_index(first, name) == first_index(second, name)
}

/// A doubled sigil between two templates that are rewritten: the whole is
/// rewritten too, to the SQL of the first, one sigil, and what the second is
/// rendered to among the names of both. The doubled sigil has no line in the
/// table, whose names are those of the two templates.
///
/// Where the placeholders of the second template keep their positions, which
/// they do if one of the two templates has no placeholder, the SQL is that of
/// the first, one sigil, and that of the second.
pub proof fn lemma_doubled_sigil_between_templates(
    a: Seq<char>,
    b: Seq<char>,
    declared: Seq<Seq<char>>,
)
    requires
        rewrite_spec(a, declared) is Ok,
        rewrite_spec(b, declared) is Ok,
    ensures
        ({
            let whole = rewrite_spec(a + seq![SIGIL, SIGIL] + b, declared);
            let x = rewrite_spec(a, declared)->Ok_0.sql;
            let y = rewrite_spec(b, declared)->Ok_0.sql;
            let order = distinct_names(lex(a) + lex(b));
            &&& whole is Ok
            &&& whole->Ok_0.sql == x + seq![SIGIL] + render(lex(b), order)
            &&& slot_names(whole->Ok_0.table.slots) == order
            &&& same_places(lex(b), order, distinct_names(lex(b))) ==> whole->Ok_0.sql == x
                + seq![SIGIL] + y
            &&& distinct_names(lex(a)).len() == 0 ==> whole->Ok_0.sql == x + seq![SIGIL] + y
            &&& distinct_names(lex(b)).len() == 0 ==> whole->Ok_0.sql == x + seq![SIGIL] + y
        }),
{
    let first = lex(a);
    let second = lex(b);
    let escape = seq![Token::Escape];
    let tokens = first + escape + second;
    let order = distinct_names(first + second);
    lemma_rewritten_iff_well_formed(a, declared);
    lemma_lex_around_an_escape(a, b);
    crate::template::lemma_first_fault_concat(first, escape, declared);
    crate::template::lemma_first_fault_single(Token::Escape, declared);
    crate::template::lemma_first_fault_concat(first + escape, second, declared);
    lemma_escape_adds_no_name(first, second);
    lemma_slots_are_well_formed(tokens);
    lemma_render_concat(first + escape, second, order);
    lemma_render_concat(first, escape, order);
    assert(render(escape, order) =~= seq![SIGIL]) by {
        assert(escape.drop_last() =~= Seq::<Token>::empty());
        assert(render(Seq::<Token>::empty(), order) =~= Seq::<char>::empty());
        assert(escape.last() == Token::Escape);
    }
    assert(render(first, order) == render(first, distinct_names(first))) by {
        lemma_names_stand_in_order_of_first_appearance(first + second, first.len() as int);
        assert((first + second).subrange(0, first.len() as int) =~= first);
        lemma_distinct_names(first);
        assert forall|name: Seq<char>| #[trigger] names_token(first, name) implies first_index(
            order,
            name,
        ) == first_index(distinct_names(first), name) by {
            lemma_first_index_in_prefix(distinct_names(first), order, name);
        }
        lemma_render_agrees(first, order, distinct_names(first));
    }
    if same_places(second, order, distinct_names(second)) {
        lemma_render_agrees(second, order, distinct_names(second));
    }
    if distinct_names(first).len() == 0 {
        lemma_names_behind_no_names(first, second);
    }
    if distinct_names(second).len() == 0 {
        lemma_distinct_names(second);
        assert forall|name: Seq<char>| #[trigger] names_token(second, name) implies first_index(
            order,
            name,
        ) == first_index(distinct_names(second), name) by {
            assert(distinct_names(second).contains(name));
        }
        lemma_render_agrees(second, order, distinct_names(second));
    }
}

/// A doubled sigil between two queries that are rewritten, of which the
/// second keeps the positions of its placeholders: the whole is rewritten to
/// the first's SQL, one sigil, and the second's SQL.
pub proof fn lemma_doubled_sigil_between_queries(
    a: Seq<char>,
    b: Seq<char>,
    parameters: Seq<Seq<char>>,
)
    requires
        crate::numberify::numberify_spec(a, parameters) is Ok,
        crate::numberify::numberify_spec(b, parameters) is Ok,
        same_places(lex(b), distinct_names(lex(a) + lex(b)), distinct_names(lex(b))),
    ensures
        crate::numberify::numberify_spec(a + seq![SIGIL, SIGIL] + b, parameters) == Ok::<
            Seq<char>,
            Seq<char>,
        >(
            crate::numberify::numberify_spec(a, parameters)->Ok_0 + seq![SIGIL]
                + crate::numberify::numberify_spec(b, parameters)->Ok_0,
        ),
{
    lemma_doubled_sigil_between_templates(a, b, parameters);
}

} // verus!
