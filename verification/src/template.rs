//! What a template means: its tokens, the positions its placeholders resolve
//! to, and the SQL it is rewritten to.
//!
//! A position is the rank of the placeholder's name among the names of the
//! template, in order of first appearance and counted from 1. The declared
//! names only decide whether a placeholder is known.

use crate::text::{decimal, is_name_char};
use vstd::prelude::*;

verus! {

/// The character that starts a placeholder. Doubled, it stands for itself.
pub const SIGIL: char = '@';

/// The character that starts a positional marker in the rewritten SQL.
pub const MARKER: char = '$';

/// One step of a scan through a template.
pub enum Token {
    /// A character that is copied as it is; never the sigil.
    Text(char),
    /// A doubled sigil.
    Escape,
    /// A sigil followed by this name, which is not empty.
    Name(Seq<char>),
    /// A sigil with neither a second sigil nor a name behind it. The scan ends
    /// here.
    Dangling,
}

/// Why a template is refused.
pub enum Fault {
    DanglingSigil,
    UnknownPlaceholder(Seq<char>),
}

/// One line of a resolution table.
pub struct SlotView {
    pub name: Seq<char>,
    pub position: int,
}

/// A resolution table, as contracts see it: the placeholders of a template,
/// each once, in order of first appearance.
pub struct TableView {
    pub slots: Seq<SlotView>,
}

impl TableView {
    /// Whether the table is one that a scan can give: no name has two lines,
    /// and the lines stand in position order, the positions counting up from 1
    /// without a gap.
    pub open spec fn wf(self) -> bool {
        &&& forall|i: int, j: int|
            0 <= i < j < self.slots.len() ==> (#[trigger] self.slots[i]).name != (
            #[trigger] self.slots[j]).name
        &&& forall|i: int| 0 <= i < self.slots.len() ==> (#[trigger] self.slots[i]).position == i + 1
    }
}

/// The names of `slots`, in order.
pub open spec fn slot_names(slots: Seq<SlotView>) -> Seq<Seq<char>> {
    slots.map_values(|slot: SlotView| slot.name)
}

/// A rewritten template, as contracts see it.
pub struct RewrittenView {
    pub sql: Seq<char>,
    pub table: TableView,
}

/// The views of `names`, in order.
pub open spec fn views(names: Seq<String>) -> Seq<Seq<char>> {
    names.map_values(|s: String| s@)
}

/// The length of the longest run of name characters that starts at `i`.
pub open spec fn name_len(t: Seq<char>, i: int) -> nat
    decreases t.len() - i,
{
    if 0 <= i < t.len() && is_name_char(t[i]) {
        1 + name_len(t, i + 1)
    } else {
        0
    }
}

/// A run of name characters ends within the template.
pub proof fn lemma_name_len_bound(t: Seq<char>, i: int)
    requires
        0 <= i <= t.len(),
    ensures
        i + name_len(t, i) <= t.len(),
        forall|k: int| i <= k < i + name_len(t, i) ==> is_name_char(#[trigger] t[k]),
        i + name_len(t, i) < t.len() ==> !is_name_char(t[i + name_len(t, i)]),
    decreases t.len() - i,
{
    if i < t.len() && is_name_char(t[i]) {
        lemma_name_len_bound(t, i + 1);
    }
}

/// The tokens of `t` from `i` on.
pub open spec fn lex_from(t: Seq<char>, i: int) -> Seq<Token>
    decreases t.len() - i,
    via lex_from_terminates
{
    if i < 0 || i >= t.len() {
        seq![]
    } else if t[i] != SIGIL {
        seq![Token::Text(t[i])] + lex_from(t, i + 1)
    } else if i + 1 < t.len() && t[i + 1] == SIGIL {
        seq![Token::Escape] + lex_from(t, i + 2)
    } else {
        let n = name_len(t, i + 1);
        if n == 0 {
            seq![Token::Dangling]
        } else {
            seq![Token::Name(t.subrange(i + 1, i + 1 + n))] + lex_from(t, i + 1 + n)
        }
    }
}

#[via_fn]
proof fn lex_from_terminates(t: Seq<char>, i: int) {
    if 0 <= i < t.len() {
        lemma_name_len_bound(t, i + 1);
    }
}

/// The tokens of `t`.
pub open spec fn lex(t: Seq<char>) -> Seq<Token> {
    lex_from(t, 0)
}

/// The least index from `from` on at which `names` holds `name`.
pub open spec fn first_index_from(names: Seq<Seq<char>>, name: Seq<char>, from: int) -> Option<int>
    decreases names.len() - from,
{
    if from < 0 || from >= names.len() {
        None
    } else if names[from] == name {
        Some(from)
    } else {
        first_index_from(names, name, from + 1)
    }
}

/// What [`first_index_from`] finds is the least index from `from` on that
/// holds the name, and it finds none only where none holds it.
pub proof fn lemma_first_index_from(names: Seq<Seq<char>>, name: Seq<char>, from: int)
    requires
        0 <= from,
    ensures
        match first_index_from(names, name, from) {
            Some(k) => {
                &&& from <= k < names.len()
                &&& names[k] == name
                &&& forall|j: int| from <= j < k ==> names[j] != name
            },
            None => forall|j: int| from <= j < names.len() ==> names[j] != name,
        },
    decreases names.len() - from,
{
    if from < names.len() && names[from] != name {
        lemma_first_index_from(names, name, from + 1);
    }
}

/// The least index at which `names` holds `name`.
pub open spec fn first_index(names: Seq<Seq<char>>, name: Seq<char>) -> Option<int> {
    first_index_from(names, name, 0)
}

/// The names among `tokens`, each once, in order of first appearance.
pub open spec fn distinct_names(tokens: Seq<Token>) -> Seq<Seq<char>>
    decreases tokens.len(),
{
    if tokens.len() == 0 {
        seq![]
    } else {
        let before = distinct_names(tokens.drop_last());
        match tokens.last() {
            Token::Name(name) => if before.contains(name) {
                before
            } else {
                before.push(name)
            },
            _ => before,
        }
    }
}

/// The position of `name`, `order` being the names of the template in order
/// of first appearance: one more than the index of `name` among them.
pub open spec fn position_of(order: Seq<Seq<char>>, name: Seq<char>) -> int
    recommends
        first_index(order, name) is Some,
{
    first_index(order, name).unwrap() + 1
}

/// What is wrong with `token`, if anything.
pub open spec fn token_fault(token: Token, declared: Seq<Seq<char>>) -> Option<Fault> {
    match token {
        Token::Dangling => Some(Fault::DanglingSigil),
        Token::Name(name) => if first_index(declared, name) is None {
            Some(Fault::UnknownPlaceholder(name))
        } else {
            None
        },
        _ => None,
    }
}

/// What is wrong with the first token that is wrong, if any is.
pub open spec fn first_fault(tokens: Seq<Token>, declared: Seq<Seq<char>>) -> Option<Fault>
    decreases tokens.len(),
{
    if tokens.len() == 0 {
        None
    } else {
        match token_fault(tokens[0], declared) {
            Some(fault) => Some(fault),
            None => first_fault(tokens.drop_first(), declared),
        }
    }
}

/// What `token` contributes to the rewritten SQL, `order` being the names of
/// the template in order of first appearance.
pub open spec fn token_text(token: Token, order: Seq<Seq<char>>) -> Seq<char> {
    match token {
        Token::Text(c) => seq![c],
        Token::Escape => seq![SIGIL],
        Token::Name(name) => seq![MARKER] + decimal(position_of(order, name) as nat),
        Token::Dangling => seq![],
    }
}

/// The rewritten SQL: what the tokens contribute, one after the other.
pub open spec fn render(tokens: Seq<Token>, order: Seq<Seq<char>>) -> Seq<char>
    decreases tokens.len(),
{
    if tokens.len() == 0 {
        seq![]
    } else {
        render(tokens.drop_last(), order) + token_text(tokens.last(), order)
    }
}

/// Whether `slots` has a line for `name`.
pub open spec fn has_slot(slots: Seq<SlotView>, name: Seq<char>) -> bool {
    exists|k: int| 0 <= k < slots.len() && #[trigger] slots[k].name == name
}

/// The table of the names `order`: the name at index `i` has position `i + 1`.
pub open spec fn slots_for(order: Seq<Seq<char>>) -> Seq<SlotView> {
    Seq::new(order.len(), |i: int| (SlotView { name: order[i], position: i + 1 }))
}

/// The lines of the resolution table: each name among the tokens once, in
/// order of first appearance, numbered from 1.
pub open spec fn slots_of(tokens: Seq<Token>) -> Seq<SlotView> {
    slots_for(distinct_names(tokens))
}

/// What rewriting `template` against `declared` gives.
///
/// The declared names decide whether the template is refused, and nothing
/// else: the SQL and the table are those of the template alone.
pub open spec fn rewrite_spec(template: Seq<char>, declared: Seq<Seq<char>>) -> Result<
    RewrittenView,
    Fault,
> {
    let tokens = lex(template);
    match first_fault(tokens, declared) {
        Some(fault) => Err(fault),
        None => Ok(
            (RewrittenView {
                sql: render(tokens, distinct_names(tokens)),
                table: (TableView { slots: slots_of(tokens) }),
            }),
        ),
    }
}

/// The first fault of two runs of tokens is that of the first run, or else
/// that of the second.
pub proof fn lemma_first_fault_concat(a: Seq<Token>, b: Seq<Token>, declared: Seq<Seq<char>>)
    ensures
        first_fault(a + b, declared) == if first_fault(a, declared) is Some {
            first_fault(a, declared)
        } else {
            first_fault(b, declared)
        },
    decreases a.len(),
{
    if a.len() == 0 {
        assert(a + b =~= b);
    } else {
        assert((a + b).drop_first() =~= a.drop_first() + b);
        lemma_first_fault_concat(a.drop_first(), b, declared);
    }
}

/// A single token's first fault is its own.
pub proof fn lemma_first_fault_single(token: Token, declared: Seq<Seq<char>>)
    ensures
        first_fault(seq![token], declared) == token_fault(token, declared),
{
    assert(seq![token].drop_first() =~= Seq::<Token>::empty());
    assert(first_fault(seq![token].drop_first(), declared) is None);
}

/// Rendering goes token by token.
pub proof fn lemma_render_push(tokens: Seq<Token>, token: Token, order: Seq<Seq<char>>)
    ensures
        render(tokens.push(token), order) == render(tokens, order) + token_text(token, order),
{
    assert(tokens.push(token).drop_last() =~= tokens);
}

/// The names grow by at most one per token.
pub proof fn lemma_distinct_push(tokens: Seq<Token>, token: Token)
    ensures
        distinct_names(tokens.push(token)) == match token {
            Token::Name(name) => if distinct_names(tokens).contains(name) {
                distinct_names(tokens)
            } else {
                distinct_names(tokens).push(name)
            },
            _ => distinct_names(tokens),
        },
{
    assert(tokens.push(token).drop_last() =~= tokens);
}

/// A name is found in a list exactly where the list contains it.
pub proof fn lemma_first_index_contains(names: Seq<Seq<char>>, name: Seq<char>)
    ensures
        first_index(names, name) is Some <==> names.contains(name),
{
    lemma_first_index_from(names, name, 0);
    if names.contains(name) {
        let k = choose|k: int| 0 <= k < names.len() && names[k] == name;
        assert(names[k] == name);
    }
}

/// Where a name is found does not change when another is put behind the list;
/// a name that was not in the list is found at the end if it is the one put
/// there.
pub proof fn lemma_first_index_push(names: Seq<Seq<char>>, last: Seq<char>, name: Seq<char>)
    ensures
        first_index(names.push(last), name) == if first_index(names, name) is Some {
            first_index(names, name)
        } else if last == name {
            Some(names.len() as int)
        } else {
            None
        },
{
    let longer = names.push(last);
    lemma_first_index_from(names, name, 0);
    lemma_first_index_from(longer, name, 0);
    assert forall|j: int| 0 <= j < names.len() implies longer[j] == names[j] by {}
    assert(longer[names.len() as int] == last);
    match first_index(names, name) {
        Some(k) => {
            assert(longer[k] == name);
            match first_index(longer, name) {
                Some(m) => {
                    if m < k {
                        assert(names[m] == name);
                    }
                },
                None => {},
            }
        },
        None => {
            match first_index(longer, name) {
                Some(m) => {
                    if m < names.len() {
                        assert(names[m] == name);
                    }
                },
                None => {},
            }
        },
    }
}

/// Whether `name` is the name of one of `tokens`.
pub open spec fn names_token(tokens: Seq<Token>, name: Seq<char>) -> bool {
    exists|k: int| 0 <= k < tokens.len() && #[trigger] tokens[k] == Token::Name(name)
}

/// What the names of the tokens are: none stands twice, each is the name of a
/// token, and each token's name is among them.
pub proof fn lemma_distinct_names(tokens: Seq<Token>)
    ensures
        forall|i: int, j: int|
            0 <= i < j < distinct_names(tokens).len() ==> distinct_names(tokens)[i]
                != distinct_names(tokens)[j],
        forall|i: int|
            0 <= i < distinct_names(tokens).len() ==> names_token(
                tokens,
                #[trigger] distinct_names(tokens)[i],
            ),
        forall|name: Seq<char>| #[trigger]
            names_token(tokens, name) ==> distinct_names(tokens).contains(name),
    decreases tokens.len(),
{
    let order = distinct_names(tokens);
    if tokens.len() > 0 {
        let before = tokens.drop_last();
        let earlier = distinct_names(before);
        lemma_distinct_names(before);
        assert forall|i: int| 0 <= i < earlier.len() implies order[i] == earlier[i] by {}
        assert forall|i: int| 0 <= i < order.len() implies names_token(
            tokens,
            #[trigger] order[i],
        ) by {
            if i < earlier.len() {
                assert(names_token(before, earlier[i]));
                let k = choose|k: int|
                    0 <= k < before.len() && #[trigger] before[k] == Token::Name(earlier[i]);
                assert(tokens[k] == Token::Name(order[i]));
            } else {
                assert(tokens[tokens.len() - 1] == Token::Name(order[i]));
            }
        }
        assert forall|name: Seq<char>| #[trigger] names_token(tokens, name) implies order.contains(
            name,
        ) by {
            let k = choose|k: int| 0 <= k < tokens.len() && #[trigger] tokens[k] == Token::Name(name);
            if k < before.len() {
                assert(before[k] == Token::Name(name));
                assert(names_token(before, name));
            }
            if earlier.contains(name) {
                let at = choose|at: int| 0 <= at < earlier.len() && earlier[at] == name;
                assert(order[at] == name);
            } else {
                assert(order[earlier.len() as int] == name);
            }
        }
        assert forall|i: int, j: int| 0 <= i < j < order.len() implies order[i] != order[j] by {
            if j >= earlier.len() {
                assert(earlier[i] == order[i]);
                assert(!earlier.contains(order[j]));
            }
        }
    }
}

/// A name that is put behind the list does not change what tokens are
/// rendered to whose names are all in the list already.
pub proof fn lemma_render_stable(tokens: Seq<Token>, order: Seq<Seq<char>>, last: Seq<char>)
    requires
        forall|name: Seq<char>| #[trigger] names_token(tokens, name) ==> order.contains(name),
    ensures
        render(tokens, order.push(last)) == render(tokens, order),
    decreases tokens.len(),
{
    if tokens.len() > 0 {
        let before = tokens.drop_last();
        assert forall|name: Seq<char>| #[trigger] names_token(before, name) implies order.contains(
            name,
        ) by {
            let k = choose|k: int| 0 <= k < before.len() && #[trigger] before[k] == Token::Name(name);
            assert(tokens[k] == Token::Name(name));
            assert(names_token(tokens, name));
        }
        lemma_render_stable(before, order, last);
        if let Token::Name(name) = tokens.last() {
            assert(tokens[tokens.len() - 1] == Token::Name(name));
            assert(names_token(tokens, name));
            lemma_first_index_contains(order, name);
            lemma_first_index_push(order, last, name);
        }
    }
}

/// The table of a template is well formed.
pub proof fn lemma_slots_are_well_formed(tokens: Seq<Token>)
    ensures
        (TableView { slots: slots_of(tokens) }).wf(),
        slot_names(slots_of(tokens)) == distinct_names(tokens),
{
    lemma_distinct_names(tokens);
    assert(slot_names(slots_of(tokens)) =~= distinct_names(tokens));
}

} // verus!
