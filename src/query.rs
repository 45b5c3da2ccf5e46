//! Realization queries: `word+tag+...+tag` walked through a transducer one
//! character at a time, taking at each state the first arc in insertion
//! order whose input label matches.

use crate::automaton::{
    fst_arc_at, fst_is_final, fst_num_arcs, fst_num_states, fst_start, fst_start_state,
    fst_states, ArcModel, StateModel, Transducer,
};
use crate::builder::{build_lines, identity_arcs, lemma_build_identity};
use crate::text::chars_of;
use vstd::prelude::*;

verus! {

#[derive(Debug, Clone, Copy, PartialEq, Eq, Structural)]
pub enum QueryError {
    /// The query is the empty string.
    EmptyQuery,
    /// The transducer has no start state.
    NoStartState,
    /// No arc of the current state reads this symbol.
    NoPath(char),
    /// The symbols ran out at a state that is not final.
    IncompleteMatch,
    /// The walk reached a state id that the transducer does not hold.
    MissingState,
}

/// The input symbols of a query: its characters with every `+` left out,
/// so the word and the tags run together.
pub open spec fn query_symbols(q: Seq<char>) -> Seq<char>
    decreases q.len(),
{
    if q.len() == 0 {
        Seq::empty()
    } else if q.last() == '+' {
        query_symbols(q.drop_last())
    } else {
        query_symbols(q.drop_last()).push(q.last())
    }
}

/// The first arc, in insertion order, whose input label is `label`.
pub open spec fn first_match(arcs: Seq<ArcModel>, label: u32) -> Option<ArcModel>
    decreases arcs.len(),
{
    if arcs.len() == 0 {
        None
    } else {
        match first_match(arcs.drop_last(), label) {
            Some(a) => Some(a),
            None => if arcs.last().0 == label {
                Some(arcs.last())
            } else {
                None
            },
        }
    }
}

/// The output labels of the walk from state `s` over `syms`, or the error
/// that stops it.
pub open spec fn walk(states: Seq<StateModel>, s: u32, syms: Seq<char>) -> Result<Seq<u32>, QueryError>
    decreases syms.len(),
{
    if s >= states.len() {
        Err(QueryError::MissingState)
    } else if syms.len() == 0 {
        if states[s as int].0 {
            Ok(Seq::empty())
        } else {
            Err(QueryError::IncompleteMatch)
        }
    } else {
        match first_match(states[s as int].1, syms[0] as u32) {
            None => Err(QueryError::NoPath(syms[0])),
            Some(a) => match walk(states, a.2, syms.drop_first()) {
                Ok(out) => Ok(seq![a.1].add(out)),
                Err(e) => Err(e),
            },
        }
    }
}

/// The output labels a query yields on a transducer, or its error.
pub open spec fn realize(states: Seq<StateModel>, start: Option<u32>, q: Seq<char>) -> Result<Seq<u32>, QueryError> {
    if q.len() == 0 {
        Err(QueryError::EmptyQuery)
    } else {
        match start {
            None => Err(QueryError::NoStartState),
            Some(s) => walk(states, s, query_symbols(q)),
        }
    }
}

/// Whether `x` is a Unicode scalar value, that is the code of some `char`.
pub open spec fn is_scalar(x: u32) -> bool {
    x < 0xD800 || (0xE000 <= x && x <= 0x10FFFF)
}

/// `out` holds the characters of `labels`, with `'\0'` for a label that is
/// no character.
pub open spec fn decodes(out: Seq<char>, labels: Seq<u32>) -> bool {
    &&& out.len() == labels.len()
    &&& forall|i: int|
        0 <= i < labels.len() ==> (out[i] as u32) == (if is_scalar(labels[i]) {
            labels[i]
        } else {
            0u32
        })
}

/// Relies on `char::from_u32`: `None` exactly for a value that is no
/// Unicode scalar value, else the character with that code.
#[verifier::external_body]
fn char_from_u32(x: u32) -> (r: Option<char>)
    ensures
        r is Some <==> is_scalar(x),
        r is Some ==> r->Some_0 as u32 == x,
{
    char::from_u32(x)
}

/// Relies on `String::from_iter`: the characters, in order.
#[verifier::external_body]
fn string_from_chars(v: Vec<char>) -> (r: String)
    ensures
        r@ == v@,
{
    String::from_iter(v)
}

/// The symbols of a query.
pub fn symbols_of(q: &Vec<char>) -> (r: Vec<char>)
    ensures
        r@ == query_symbols(q@),
{
    let mut r: Vec<char> = Vec::new();
    let mut i: usize = 0;
    while i < q.len()
        invariant
            i <= q@.len(),
            r@ == query_symbols(q@.take(i as int)),
        decreases q@.len() - i,
    {
        proof {
            assert(q@.take(i + 1).drop_last() =~= q@.take(i as int));
        }
        if q[i] != '+' {
            r.push(q[i]);
        }
        i += 1;
    }
    proof {
        assert(q@.take(q@.len() as int) =~= q@);
    }
    r
}

/// The first arc of state `s` whose input label is `label`.
fn find_arc(fst: &Transducer, s: u32, label: u32) -> (r: Option<ArcModel>)
    requires
        s < fst_states(*fst).len(),
    ensures
        r == first_match(fst_states(*fst)[s as int].1, label),
{
    let ghost arcs = fst_states(*fst)[s as int].1;
    let n = match fst_num_arcs(fst, s) {
        Ok(n) => n,
        Err(_) => {
            return None;
        },
    };
    let mut i: usize = 0;
    while i < n
        invariant
            n == arcs.len(),
            i <= n,
            s < fst_states(*fst).len(),
            arcs == fst_states(*fst)[s as int].1,
            first_match(arcs.take(i as int), label) is None,
        decreases n - i,
    {
        proof {
            assert(arcs.take(i + 1).drop_last() =~= arcs.take(i as int));
        }
        let a = match fst_arc_at(fst, s, i) {
            Ok(a) => a,
            Err(_) => {
                return None;
            },
        };
        if a.0 == label {
            proof {
                lemma_first_match_prefix(arcs, label, i as int + 1);
            }
            return Some(a);
        }
        i += 1;
    }
    proof {
        assert(arcs.take(n as int) =~= arcs);
    }
    None
}

proof fn lemma_first_match_prefix(arcs: Seq<ArcModel>, label: u32, k: int)
    requires
        0 <= k <= arcs.len(),
        first_match(arcs.take(k), label) is Some,
    ensures
        first_match(arcs, label) == first_match(arcs.take(k), label),
    decreases arcs.len() - k,
{
    if k < arcs.len() {
        assert(arcs.take(k + 1).drop_last() =~= arcs.take(k));
        lemma_first_match_prefix(arcs, label, k + 1);
    } else {
        assert(arcs.take(k) =~= arcs);
    }
}

proof fn lemma_first_match_found(arcs: Seq<ArcModel>, label: u32)
    requires
        first_match(arcs, label) is Some,
    ensures
        exists|j: int| 0 <= j < arcs.len() && arcs[j] == first_match(arcs, label)->Some_0,
        first_match(arcs, label)->Some_0.0 == label,
    decreases arcs.len(),
{
    if arcs.len() > 0 && first_match(arcs.drop_last(), label) is Some {
        lemma_first_match_found(arcs.drop_last(), label);
        let j = choose|j: int| 0 <= j < arcs.drop_last().len() && arcs.drop_last()[j] == first_match(arcs.drop_last(), label)->Some_0;
        assert(arcs[j] == arcs.drop_last()[j]);
    } else {
        assert(arcs[arcs.len() - 1] == arcs.last());
    }
}

proof fn lemma_first_match_none(arcs: Seq<ArcModel>, label: u32)
    requires
        forall|j: int| 0 <= j < arcs.len() ==> arcs[j].0 != label,
    ensures
        first_match(arcs, label) is None,
    decreases arcs.len(),
{
    if arcs.len() > 0 {
        lemma_first_match_none(arcs.drop_last(), label);
    }
}

proof fn lemma_symbols_len(q: Seq<char>)
    ensures
        query_symbols(q).len() <= q.len(),
    decreases q.len(),
{
    if q.len() > 0 {
        lemma_symbols_len(q.drop_last());
    }
}

proof fn lemma_walk_echo(states: Seq<StateModel>, s: u32, syms: Seq<char>)
    requires
        identity_arcs(states),
        walk(states, s, syms) is Ok,
    ensures
        walk(states, s, syms)->Ok_0 == syms.map_values(|c: char| c as u32),
    decreases syms.len(),
{
    if syms.len() == 0 {
        assert(syms.map_values(|c: char| c as u32) =~= Seq::<u32>::empty());
    } else {
        let arcs = states[s as int].1;
        let a = first_match(arcs, syms[0] as u32)->Some_0;
        lemma_first_match_found(arcs, syms[0] as u32);
        let j = choose|j: int| 0 <= j < arcs.len() && arcs[j] == a;
        assert(states[s as int].1[j].0 == states[s as int].1[j].1);
        lemma_walk_echo(states, a.2, syms.drop_first());
        assert(seq![a.1].add(syms.drop_first().map_values(|c: char| c as u32)) =~= syms.map_values(
            |c: char| c as u32,
        ));
    }
}

/// On a transducer built from rule lines, a query that succeeds yields
/// exactly its own symbols: the matched input, never a rewritten string.
pub proof fn lemma_realize_echo(lines: Seq<Seq<char>>, q: Seq<char>, out: Seq<char>)
    requires
        build_lines(lines) is Ok,
        realize(build_lines(lines)->Ok_0, Some(0u32), q) is Ok,
        decodes(out, realize(build_lines(lines)->Ok_0, Some(0u32), q)->Ok_0),
    ensures
        out == query_symbols(q),
{
    let states = build_lines(lines)->Ok_0;
    let syms = query_symbols(q);
    lemma_build_identity(lines);
    lemma_walk_echo(states, 0, syms);
    let labels = syms.map_values(|c: char| c as u32);
    assert forall|i: int| 0 <= i < out.len() implies out[i] == syms[i] by {
        assert(labels[i] == syms[i] as u32);
        vstd::utf8::char_is_scalar(syms[i]);
        vstd::utf8::char_u32_cast(syms[i], syms[i] as u32);
        vstd::utf8::char_u32_cast(out[i], out[i] as u32);
    }
    assert(out =~= syms);
}

/// A query whose first symbol labels no arc of the start state fails with
/// `NoPath` on that symbol.
pub proof fn lemma_unknown_first_symbol(states: Seq<StateModel>, start: u32, q: Seq<char>)
    requires
        start < states.len(),
        query_symbols(q).len() > 0,
        forall|j: int|
            0 <= j < states[start as int].1.len() ==> states[start as int].1[j].0
                != query_symbols(q)[0] as u32,
    ensures
        realize(states, Some(start), q) == Err::<Seq<u32>, QueryError>(
            QueryError::NoPath(query_symbols(q)[0]),
        ),
{
    lemma_symbols_len(q);
    lemma_first_match_none(states[start as int].1, query_symbols(q)[0] as u32);
}

/// Walks the query through the transducer. On success the result holds the
/// output labels of the arcs taken, as characters.
pub fn realize_query(fst: &Transducer, query: &str) -> (r: Result<String, QueryError>)
    ensures
        match realize(fst_states(*fst), fst_start(*fst), query@) {
            Ok(out) => r is Ok && decodes(r->Ok_0@, out),
            Err(e) => r == Err::<String, QueryError>(e),
        },
{
    let q = chars_of(query);
    if q.len() == 0 {
        return Err(QueryError::EmptyQuery);
    }
    let mut state = match fst_start_state(fst) {
        Some(s) => s,
        None => {
            return Err(QueryError::NoStartState);
        },
    };
    let syms = symbols_of(&q);
    let ghost states = fst_states(*fst);
    let ghost whole = walk(states, state, syms@);
    let mut labels: Vec<u32> = Vec::new();
    let mut i: usize = 0;
    proof {
        assert(syms@.skip(0) =~= syms@);
        assert forall|o: Seq<u32>| labels@ + o =~= o by {}
    }
    while i < syms.len()
        invariant
            i <= syms@.len(),
            states == fst_states(*fst),
            q@ == query@,
            q@.len() > 0,
            syms@ == query_symbols(q@),
            fst_start(*fst) is Some,
            whole == realize(states, fst_start(*fst), query@),
            whole == walk(states, fst_start(*fst)->Some_0, syms@),
            whole == match walk(states, state, syms@.skip(i as int)) {
                Ok(o) => Ok(labels@ + o),
                Err(e) => Err(e),
            },
        decreases syms@.len() - i,
    {
        proof {
            assert(syms@.skip(i as int).drop_first() =~= syms@.skip(i + 1));
        }
        if state as usize >= fst_num_states(fst) {
            return Err(QueryError::MissingState);
        }
        let sym = syms[i];
        assert(syms@.skip(i as int)[0] == sym);
        match find_arc(fst, state, sym as u32) {
            None => {
                return Err(QueryError::NoPath(sym));
            },
            Some(a) => {
                proof {
                    assert(labels@.push(a.1) =~= labels@ + seq![a.1]);
                    assert forall|o: Seq<u32>| labels@ + seq![a.1].add(o) =~= labels@.push(a.1) + o by {}
                }
                labels.push(a.1);
                state = a.2;
            },
        }
        i += 1;
    }
    proof {
        assert(labels@ + Seq::<u32>::empty() =~= labels@);
    }
    match fst_is_final(fst, state) {
        Ok(true) => {},
        Ok(false) => {
            return Err(QueryError::IncompleteMatch);
        },
        Err(_) => {
            return Err(QueryError::MissingState);
        },
    }
    let mut out: Vec<char> = Vec::new();
    let mut k: usize = 0;
    while k < labels.len()
        invariant
            k <= labels@.len(),
            decodes(out@, labels@.take(k as int)),
        decreases labels@.len() - k,
    {
        let c = match char_from_u32(labels[k]) {
            Some(c) => c,
            None => '\0',
        };
        out.push(c);
        proof {
            assert(labels@.take(k + 1).drop_last() =~= labels@.take(k as int));
        }
        k += 1;
    }
    proof {
        assert(labels@.take(labels@.len() as int) =~= labels@);
    }
    Ok(string_from_chars(out))
}

} // verus!
