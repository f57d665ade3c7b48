//! The scanner: one pass over a template that rewrites its named placeholders
//! to positional markers and records which position each name resolved to.

use crate::template::{
    distinct_names, first_fault, first_index, first_index_from, lemma_distinct_names,
    lemma_distinct_push, lemma_first_fault_concat, lemma_first_fault_single,
    lemma_first_index_contains, lemma_first_index_push, lemma_render_push, lemma_render_stable,
    lemma_slots_are_well_formed, lex, lex_from, name_len, render, rewrite_spec, slot_names,
    slots_of, token_fault, token_text, views, Fault, RewrittenView, SlotView, TableView, Token,
    MARKER, SIGIL,
};
use crate::text::{char_at, chars_of, name_char, push_char, push_decimal};
use vstd::prelude::*;
use vstd::string::StringExecFns;

verus! {

/// Why a template is refused.
#[derive(Debug, Clone, PartialEq, Eq)]
pub enum TemplateError {
    /// A sigil that is neither doubled nor followed by a name.
    DanglingSigil,
    /// A placeholder whose name is not among the declared names.
    UnknownPlaceholder(String),
}

impl View for TemplateError {
    type V = Fault;

    open spec fn view(&self) -> Fault {
        match self {
            TemplateError::DanglingSigil => Fault::DanglingSigil,
            TemplateError::UnknownPlaceholder(name) => Fault::UnknownPlaceholder(name@),
        }
    }
}

/// What is told about `fault`.
pub open spec fn message_of(fault: Fault) -> Seq<char> {
    match fault {
        Fault::DanglingSigil =>
            "Input SQL should not end with '@'. If a single literal '@' is desired, it should be doubled ('@@')"@,
        Fault::UnknownPlaceholder(name) => "The provided SQL contains \"@"@ + name
            + "\", but there is no matching field in the struct with the name \""@ + name
            + "\""@,
    }
}

impl TemplateError {
    /// The error in words.
    pub fn message(&self) -> (text: String)
        ensures
            text@ == message_of(self@),
    {
        match self {
            TemplateError::DanglingSigil => String::from_str(
                "Input SQL should not end with '@'. If a single literal '@' is desired, it should be doubled ('@@')",
            ),
            TemplateError::UnknownPlaceholder(name) => {
                let mut text = String::from_str("The provided SQL contains \"@");
                text.append(name.as_str());
                text.append("\", but there is no matching field in the struct with the name \"");
                text.append(name.as_str());
                text.append("\"");
                text
            },
        }
    }
}

/// One line of a resolution table: a placeholder and the position it resolved
/// to.
#[derive(Debug, Clone, PartialEq, Eq)]
pub struct Slot {
    pub name: String,
    pub position: usize,
}

impl View for Slot {
    type V = SlotView;

    open spec fn view(&self) -> SlotView {
        SlotView { name: self.name@, position: self.position as int }
    }
}

/// The views of `slots`, in order.
pub open spec fn slot_views(slots: Seq<Slot>) -> Seq<SlotView> {
    slots.map_values(|s: Slot| s@)
}

/// Which position each placeholder of a template resolved to.
#[derive(Debug, Clone, PartialEq, Eq)]
pub struct ResolutionTable {
    /// The placeholders of the template, each once, in order of first
    /// appearance, which is the order of their positions.
    pub slots: Vec<Slot>,
}

impl View for ResolutionTable {
    type V = TableView;

    open spec fn view(&self) -> TableView {
        TableView { slots: slot_views(self.slots@) }
    }
}

/// A template after rewriting.
#[derive(Debug, Clone, PartialEq, Eq)]
pub struct Rewritten {
    /// The SQL with positional markers.
    pub sql: String,
    pub table: ResolutionTable,
}

impl View for Rewritten {
    type V = RewrittenView;

    open spec fn view(&self) -> RewrittenView {
        RewrittenView { sql: self.sql@, table: self.table@ }
    }
}

/// The first index at which `names` holds `name`, if it holds it at all.
pub fn position(names: &Vec<String>, name: &String) -> (r: Option<usize>)
    ensures
        match r {
            Some(k) => k < names.len() && first_index(views(names@), name@) == Some(k as int),
            None => first_index(views(names@), name@) is None,
        },
{
    let mut k: usize = 0;
    while k < names.len()
        invariant
            k <= names.len(),
            first_index(views(names@), name@) == first_index_from(views(names@), name@, k as int),
        decreases names.len() - k,
    {
        if names[k] == *name {
            return Some(k);
        }
        k += 1;
    }
    None
}

/// The index just behind the run of name characters that starts at `from`.
pub fn name_end(chars: &Vec<char>, from: usize) -> (end: usize)
    requires
        from <= chars.len(),
    ensures
        end == from + name_len(chars@, from as int),
        end <= chars.len(),
{
    let mut end: usize = from;
    while end < chars.len() && name_char(chars[end])
        invariant
            from <= end <= chars.len(),
            name_len(chars@, from as int) == (end - from) + name_len(chars@, end as int),
        decreases chars.len() - end,
    {
        end += 1;
    }
    end
}

/// The characters of `chars` from `from` up to `to`, as a string.
pub fn string_of(chars: &Vec<char>, from: usize, to: usize) -> (s: String)
    requires
        from <= to <= chars.len(),
    ensures
        s@ == chars@.subrange(from as int, to as int),
{
    let mut s = String::new();
    let mut k: usize = from;
    while k < to
        invariant
            from <= k <= to <= chars.len(),
            s@ == chars@.subrange(from as int, k as int),
        decreases to - k,
    {
        push_char(&mut s, chars[k]);
        k += 1;
        assert(s@ =~= chars@.subrange(from as int, k as int));
    }
    s
}

/// The index of the line that `slots` has for `name`, if it has one.
pub fn slot_index(slots: &Vec<Slot>, name: &String) -> (r: Option<usize>)
    ensures
        match r {
            Some(k) => k < slots.len() && first_index(slot_names(slot_views(slots@)), name@)
                == Some(k as int),
            None => first_index(slot_names(slot_views(slots@)), name@) is None,
        },
{
    let ghost names = slot_names(slot_views(slots@));
    let mut k: usize = 0;
    while k < slots.len()
        invariant
            k <= slots.len(),
            names == slot_names(slot_views(slots@)),
            first_index(names, name@) == first_index_from(names, name@, k as int),
        decreases slots.len() - k,
    {
        assert(names[k as int] == slots@[k as int].name@);
        if slots[k].name == *name {
            return Some(k);
        }
        k += 1;
    }
    None
}

/// What a result of [`rewrite`] is to contracts.
pub open spec fn outcome(r: Result<Rewritten, TemplateError>) -> Result<RewrittenView, Fault> {
    match r {
        Ok(rewritten) => Ok(rewritten@),
        Err(error) => Err(error@),
    }
}

/// Rewrites `template` against the declared names.
///
/// The template is scanned from left to right. A doubled sigil becomes one
/// sigil. A sigil followed by a name becomes the positional marker of that
/// name: the first name of the template has position 1, the next new name
/// position 2, and a name that comes again has the position it had. Every
/// other character is copied. The first sigil with nothing to go with it, or
/// the first name that is not declared, ends the scan with that error.
pub fn rewrite(template: &str, declared: &Vec<String>) -> (r: Result<Rewritten, TemplateError>)
    ensures
        outcome(r) == rewrite_spec(template@, views(declared@)),
        r matches Ok(rewritten) ==> rewritten@.table.wf(),
{
    let chars = chars_of(template);
    let ghost names = views(declared@);
    let ghost mut tokens: Seq<Token> = seq![];
    let mut sql = String::new();
    let mut slots: Vec<Slot> = Vec::new();
    let mut i: usize = 0;
    assert(tokens + lex_from(chars@, 0) =~= lex(chars@));
    assert(slot_views(slots@) =~= slots_of(tokens));
    while i < chars.len()
        invariant
            i <= chars.len(),
            slots.len() <= i,
            chars@ == template@,
            names == views(declared@),
            lex(chars@) == tokens + lex_from(chars@, i as int),
            first_fault(tokens, names) is None,
            sql@ == render(tokens, distinct_names(tokens)),
            slot_views(slots@) == slots_of(tokens),
        decreases chars.len() - i,
    {
        let ghost rest = lex_from(chars@, i as int);
        let ghost order = distinct_names(tokens);
        let c = char_at(&chars, i);
        if c != SIGIL {
            push_char(&mut sql, c);
            proof {
                let token = Token::Text(c);
                lemma_step(tokens, token, rest, lex_from(chars@, i + 1), names);
                tokens = tokens.push(token);
                assert(sql@ =~= render(tokens, distinct_names(tokens)));
            }
            i += 1;
        } else if i + 1 < chars.len() && chars[i + 1] == SIGIL {
            push_char(&mut sql, SIGIL);
            proof {
                let token = Token::Escape;
                lemma_step(tokens, token, rest, lex_from(chars@, i + 2), names);
                tokens = tokens.push(token);
                assert(sql@ =~= render(tokens, distinct_names(tokens)));
            }
            i += 2;
        } else {
            let end = name_end(&chars, i + 1);
            if end == i + 1 {
                proof {
                    lemma_stop(tokens, Token::Dangling, rest, Seq::empty(), names);
                }
                return Err(TemplateError::DanglingSigil);
            }
            let name = string_of(&chars, i + 1, end);
            let ghost token = Token::Name(name@);
            if position(declared, &name).is_none() {
                proof {
                    lemma_stop(tokens, token, rest, lex_from(chars@, end as int), names);
                }
                return Err(TemplateError::UnknownPlaceholder(name));
            }
            proof {
                assert(slot_names(slots_of(tokens)) =~= order);
                lemma_distinct_names(tokens);
                lemma_first_index_contains(order, name@);
                lemma_first_index_push(order, name@, name@);
                lemma_render_stable(tokens, order, name@);
                lemma_step(tokens, token, rest, lex_from(chars@, end as int), names);
            }
            let place = match slot_index(&slots, &name) {
                Some(at) => at + 1,
                None => {
                    let next = slots.len() + 1;
                    slots.push(Slot { name, position: next });
                    next
                },
            };
            push_char(&mut sql, MARKER);
            push_decimal(&mut sql, place);
            proof {
                tokens = tokens.push(token);
                assert(sql@ =~= render(tokens, distinct_names(tokens)));
                assert(slot_views(slots@) =~= slots_of(tokens));
            }
            i = end;
        }
    }
    proof {
        assert(lex_from(chars@, i as int) =~= Seq::<Token>::empty());
        assert(tokens + lex_from(chars@, i as int) =~= tokens);
        lemma_slots_are_well_formed(tokens);
    }
    Ok(Rewritten { sql, table: ResolutionTable { slots } })
}

/// What a result of [`numberify`] is to contracts.
pub open spec fn text_outcome(r: Result<String, String>) -> Result<Seq<char>, Seq<char>> {
    match r {
        Ok(sql) => Ok(sql@),
        Err(text) => Err(text@),
    }
}

/// What [`numberify`] gives: the rewritten SQL, or the refusal in words.
pub open spec fn numberify_spec(query: Seq<char>, parameters: Seq<Seq<char>>) -> Result<
    Seq<char>,
    Seq<char>,
> {
    match rewrite_spec(query, parameters) {
        Ok(rewritten) => Ok(rewritten.sql),
        Err(fault) => Err(message_of(fault)),
    }
}

/// Turns the named placeholders of `query` into positional markers.
///
/// `@name` becomes `$k`, where `k` is 1 for the first name of the query, 2 for
/// the next new name, and so on; `@@` becomes `@`. A name has to be one of
/// `parameters`, whose order does not matter. A query that cannot be rewritten
/// gives the reason in words.
pub fn numberify(query: String, parameters: Vec<String>) -> (r: Result<String, String>)
    ensures
        text_outcome(r) == numberify_spec(query@, views(parameters@)),
{
    match rewrite(query.as_str(), &parameters) {
        Ok(rewritten) => Ok(rewritten.sql),
        Err(error) => Err(error.message()),
    }
}

/// One more faultless token: what holds of the tokens so far holds of them
/// with `token` behind them.
proof fn lemma_step(
    tokens: Seq<Token>,
    token: Token,
    rest: Seq<Token>,
    after: Seq<Token>,
    declared: Seq<Seq<char>>,
)
    requires
        first_fault(tokens, declared) is None,
        token_fault(token, declared) is None,
        rest == seq![token] + after,
    ensures
        tokens + rest == tokens.push(token) + after,
        first_fault(tokens.push(token), declared) is None,
        render(tokens.push(token), distinct_names(tokens.push(token))) == render(
            tokens,
            distinct_names(tokens.push(token)),
        ) + token_text(token, distinct_names(tokens.push(token))),
        distinct_names(tokens.push(token)) == match token {
            Token::Name(name) => if distinct_names(tokens).contains(name) {
                distinct_names(tokens)
            } else {
                distinct_names(tokens).push(name)
            },
            _ => distinct_names(tokens),
        },
{
    assert(tokens + rest =~= tokens.push(token) + after);
    assert(tokens.push(token) =~= tokens + seq![token]);
    lemma_first_fault_concat(tokens, seq![token], declared);
    lemma_first_fault_single(token, declared);
    lemma_render_push(tokens, token, distinct_names(tokens.push(token)));
    lemma_distinct_push(tokens, token);
}

/// A faulty token behind faultless ones: its fault is the first.
proof fn lemma_stop(
    tokens: Seq<Token>,
    token: Token,
    rest: Seq<Token>,
    after: Seq<Token>,
    declared: Seq<Seq<char>>,
)
    requires
        first_fault(tokens, declared) is None,
        token_fault(token, declared) is Some,
        rest == seq![token] + after,
    ensures
        first_fault(tokens + rest, declared) == token_fault(token, declared),
{
    lemma_first_fault_concat(tokens, rest, declared);
    assert(rest.drop_first() =~= after);
}

} // verus!
