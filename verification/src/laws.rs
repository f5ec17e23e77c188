//! What holds of parsing, matching and solving in general. Each law is a
//! proof over the models that the contracts of the library speak of.

use crate::fact::{parse_fact, parse_term, render_fact, render_term, TermView};
use crate::matching::{
    all_ground, arity_fits, binds_literals, extends, is_ground, lemma_lookup_extends,
    lemma_lookup_push, lemma_lookup_some, lemma_match_fact_keeps, lemma_match_from_keeps,
    lemma_match_term_keeps, lookup, match_fact, match_from, match_term, match_term_within, named,
    solutions, solutions_among, unique_names, BindingView, Outcome,
};
use crate::text::{join, lemma_tokens_of_join, tokens, whitespace_free};
use vstd::prelude::*;

verus! {

/// Whether a walk over `pattern` reaches position `k`: no postfix stands
/// before it.
pub open spec fn walked(pattern: Seq<TermView>, k: int) -> bool {
    0 <= k < pattern.len() && forall|m: int| 0 <= m < k ==> !(#[trigger] pattern[m] is Postfix)
}

/// Whether `term` is written as one token that reads back as `term`: its
/// token is neither empty nor holds whitespace, and plain text does not
/// start with the mark of another kind.
pub open spec fn writable(term: TermView) -> bool {
    &&& render_term(term).len() > 0
    &&& whitespace_free(render_term(term))
    &&& term matches TermView::Text(t) ==> t[0] != '$' && t[0] != '%' && t[0] != '#'
}

/// A token reads as a term that is written as that token.
pub proof fn lemma_render_parse_term(token: Seq<char>)
    ensures
        render_term(parse_term(token)) == token,
{
    if token.len() > 0 {
        assert(seq![token[0]] + token.skip(1) =~= token);
    }
}

/// A writable term is written as a token that reads as that term.
pub proof fn lemma_parse_render_term(term: TermView)
    requires
        writable(term),
    ensures
        parse_term(render_term(term)) == term,
{
    match term {
        TermView::Text(t) => {},
        TermView::Id(t) => {
            assert((seq!['#'] + t).skip(1) =~= t);
        },
        TermView::Variable(t) => {
            assert((seq!['$'] + t).skip(1) =~= t);
        },
        TermView::Postfix(t) => {
            assert((seq!['%'] + t).skip(1) =~= t);
        },
    }
}

/// Round trip from text: a text made of tokens, none empty and none with
/// whitespace in it, with one space between neighbours, is parsed into a
/// fact that is rendered as that text again.
pub proof fn lemma_render_parse_round_trip(parts: Seq<Seq<char>>)
    requires
        forall|k: int| 0 <= k < parts.len() ==> (#[trigger] parts[k]).len() > 0 && whitespace_free(
            parts[k],
        ),
    ensures
        tokens(join(parts)) == parts,
        render_fact(parse_fact(join(parts))) == join(parts),
{
    lemma_tokens_of_join(parts);
    let terms = parse_fact(join(parts));
    let rendered = terms.map_values(|term: TermView| render_term(term));
    assert forall|k: int| 0 <= k < parts.len() implies rendered[k] == parts[k] by {
        lemma_render_parse_term(parts[k]);
    }
    assert(rendered =~= parts);
}

/// Round trip from a fact: a fact of writable terms is rendered as a text
/// that is parsed into that fact again.
pub proof fn lemma_parse_render_round_trip(terms: Seq<TermView>)
    requires
        forall|k: int| 0 <= k < terms.len() ==> writable(#[trigger] terms[k]),
    ensures
        parse_fact(render_fact(terms)) == terms,
{
    let parts = terms.map_values(|term: TermView| render_term(term));
    assert forall|k: int| 0 <= k < parts.len() implies (#[trigger] parts[k]).len() > 0
        && whitespace_free(parts[k]) by {
        assert(writable(terms[k]));
    }
    lemma_tokens_of_join(parts);
    let back = parse_fact(render_fact(terms));
    assert forall|k: int| 0 <= k < terms.len() implies back[k] == terms[k] by {
        assert(writable(terms[k]));
        lemma_parse_render_term(terms[k]);
    }
    assert(back =~= terms);
}

/// Arity: a pattern that does not end in a postfix matches no fact of
/// another length, and an empty pattern matches nothing.
pub proof fn lemma_arity_boundary(
    pattern: Seq<TermView>,
    concrete: Seq<TermView>,
    env: Seq<BindingView>,
)
    requires
        pattern.len() == 0 || (!(pattern.last() is Postfix) && pattern.len() != concrete.len()),
    ensures
        !match_fact(pattern, concrete, env).matched,
        match_fact(pattern, concrete, env).env == env,
{
}

/// A pattern that ends in a postfix matches no fact shorter than itself.
pub proof fn lemma_postfix_arity(
    pattern: Seq<TermView>,
    concrete: Seq<TermView>,
    env: Seq<BindingView>,
)
    requires
        pattern.len() > concrete.len(),
    ensures
        !match_fact(pattern, concrete, env).matched,
{
}

/// A variable whose name is bound to a literal matches that literal and
/// nothing else, and binds nothing more.
pub proof fn lemma_bound_variable(
    pattern: TermView,
    concrete: TermView,
    env: Seq<BindingView>,
    bound: TermView,
)
    requires
        pattern.is_placeholder(),
        pattern.name().len() > 0,
        lookup(env, pattern.name()) == Some(bound),
        bound.is_literal(),
    ensures
        match_term(pattern, concrete, env) == if bound == concrete {
            Some(env)
        } else {
            None
        },
{
    lemma_lookup_some(env, pattern.name());
    assert(env.len() > 0);
    assert(match_term_within(bound, concrete, env, (env.len() - 1) as nat) == if bound
        == concrete {
        Some(env)
    } else {
        None
    });
}

/// After a named placeholder has matched a literal under bindings of
/// literals, its name is bound to that literal.
pub proof fn lemma_matched_placeholder_is_bound(
    pattern: TermView,
    concrete: TermView,
    env: Seq<BindingView>,
)
    requires
        pattern.is_placeholder(),
        pattern.name().len() > 0,
        concrete.is_literal(),
        binds_literals(env),
        match_term(pattern, concrete, env) is Some,
    ensures
        lookup(match_term(pattern, concrete, env)->0, pattern.name()) == Some(concrete),
{
    let name = pattern.name();
    match lookup(env, name) {
        Some(bound) => {
            lemma_lookup_some(env, name);
            lemma_bound_variable(pattern, concrete, env, bound);
        },
        None => {
            lemma_lookup_push(env, BindingView { name, term: concrete }, name);
        },
    }
}

/// After a pattern has matched a ground fact under bindings of literals,
/// the name of each variable that the walk reached is bound to the term at
/// the variable's position in the fact.
pub proof fn lemma_walked_variable_is_bound(
    pattern: Seq<TermView>,
    concrete: Seq<TermView>,
    env: Seq<BindingView>,
    at: int,
    k: int,
)
    requires
        0 <= at <= k < pattern.len(),
        pattern.len() <= concrete.len(),
        forall|m: int| at <= m < k ==> !(#[trigger] pattern[m] is Postfix),
        pattern[k] is Variable,
        pattern[k].name().len() > 0,
        is_ground(concrete),
        binds_literals(env),
        match_from(pattern, concrete, env, at).matched,
    ensures
        lookup(match_from(pattern, concrete, env, at).env, pattern[k].name()) == Some(concrete[k]),
    decreases k - at,
{
    let name = pattern[k].name();
    if at == k {
        let bound = match_term(pattern[k], concrete[k], env)->0;
        lemma_matched_placeholder_is_bound(pattern[k], concrete[k], env);
        lemma_match_from_keeps(pattern, concrete, bound, k + 1);
        lemma_lookup_extends(match_from(pattern, concrete, bound, k + 1).env, bound, name);
    } else {
        assert(!(pattern[at] is Postfix));
        let bound = match_term(pattern[at], concrete[at], env)->0;
        lemma_match_term_keeps(pattern[at], concrete[at], env);
        lemma_walked_variable_is_bound(pattern, concrete, bound, at + 1, k);
    }
}

/// Repeated variable: where a pattern holds the same named variable at two
/// positions that the walk reaches, it matches a ground fact only if the
/// fact holds equal terms at the two positions.
pub proof fn lemma_repeated_variable(
    pattern: Seq<TermView>,
    concrete: Seq<TermView>,
    env: Seq<BindingView>,
    i: int,
    j: int,
)
    requires
        walked(pattern, i),
        walked(pattern, j),
        pattern[i] is Variable,
        pattern[i].name().len() > 0,
        pattern[j] == pattern[i],
        is_ground(concrete),
        binds_literals(env),
        match_fact(pattern, concrete, env).matched,
    ensures
        concrete[i] == concrete[j],
{
    lemma_walked_variable_is_bound(pattern, concrete, env, 0, i);
    lemma_walked_variable_is_bound(pattern, concrete, env, 0, j);
}

/// Whether `solution` comes from matching the first clause of `query`
/// against the fact at position `k`: the clause matches that fact, and
/// `solution` solves the other clauses under the bindings of that match.
pub open spec fn solved_through(
    facts: Seq<Seq<TermView>>,
    query: Seq<Seq<TermView>>,
    env: Seq<BindingView>,
    k: int,
    solution: Seq<BindingView>,
) -> bool {
    &&& 0 <= k < facts.len()
    &&& match_fact(query[0], facts[k], env).matched
    &&& solutions(facts, query.drop_first(), match_fact(query[0], facts[k], env).env).contains(
        solution,
    )
}

/// The solutions of a query with a first clause are those that come from
/// matching the first clause against one of the facts.
pub proof fn lemma_solution_of_first_clause(
    facts: Seq<Seq<TermView>>,
    query: Seq<Seq<TermView>>,
    env: Seq<BindingView>,
    n: nat,
    solution: Seq<BindingView>,
)
    requires
        query.len() > 0,
        n <= facts.len(),
    ensures
        solutions_among(facts, query, env, n).contains(solution) <==> exists|k: int|
            k < n && #[trigger] solved_through(facts, query, env, k, solution),
    decreases n,
{
    let among = solutions_among(facts, query, env, n);
    if n == 0 {
    } else {
        let earlier = solutions_among(facts, query, env, (n - 1) as nat);
        lemma_solution_of_first_clause(facts, query, env, (n - 1) as nat, solution);
        let first = match_fact(query[0], facts[n - 1], env);
        let later = solutions(facts, query.drop_first(), first.env);
        if among.contains(solution) {
            let at = choose|at: int| 0 <= at < among.len() && among[at] == solution;
            if at < earlier.len() {
                assert(earlier[at] == solution);
                assert(earlier.contains(solution));
                let k = choose|k: int|
                    k < n - 1 && #[trigger] solved_through(facts, query, env, k, solution);
                assert(k < n && solved_through(facts, query, env, k, solution));
            } else {
                assert(first.matched);
                assert(later[at - earlier.len()] == solution);
                assert(later.contains(solution));
                assert(solved_through(facts, query, env, n - 1, solution));
            }
        }
        if exists|k: int| k < n && #[trigger] solved_through(facts, query, env, k, solution) {
            let k = choose|k: int|
                k < n && #[trigger] solved_through(facts, query, env, k, solution);
            if k < n - 1 {
                assert(earlier.contains(solution));
                let at = choose|at: int| 0 <= at < earlier.len() && earlier[at] == solution;
                assert(among[at] == solution);
            } else {
                let at = choose|at: int| 0 <= at < later.len() && later[at] == solution;
                assert(among[earlier.len() + at] == solution);
            }
        }
    }
}

/// Join: a solution of a query of two clauses comes from a fact that the
/// first clause matches and a fact that the second clause matches under
/// the bindings of the first. Where both clauses hold the same named
/// variable, the two facts, if ground, hold the same term at the
/// variable's positions, and the solution binds the variable to it.
pub proof fn lemma_join_shares_bindings(
    facts: Seq<Seq<TermView>>,
    first: Seq<TermView>,
    second: Seq<TermView>,
    env: Seq<BindingView>,
    solution: Seq<BindingView>,
    i: int,
    j: int,
)
    requires
        all_ground(facts),
        binds_literals(env),
        walked(first, i),
        walked(second, j),
        first[i] is Variable,
        first[i].name().len() > 0,
        second[j] == first[i],
        solutions(facts, seq![first, second], env).contains(solution),
    ensures
        exists|a: int, b: int|
            {
                &&& 0 <= a < facts.len()
                &&& 0 <= b < facts.len()
                &&& (#[trigger] match_fact(first, facts[a], env)).matched
                &&& (#[trigger] match_fact(second, facts[b], match_fact(first, facts[a], env).env))
                    == (Outcome { matched: true, env: solution })
                &&& facts[a][i] == facts[b][j]
                &&& lookup(solution, first[i].name()) == Some(facts[a][i])
            },
{
    let query = seq![first, second];
    let name = first[i].name();
    lemma_solution_of_first_clause(facts, query, env, facts.len(), solution);
    let a = choose|a: int|
        a < facts.len() && #[trigger] solved_through(facts, query, env, a, solution);
    let one = match_fact(first, facts[a], env);
    let rest = query.drop_first();
    assert(rest =~= seq![second]);
    lemma_solution_of_first_clause(facts, rest, one.env, facts.len(), solution);
    let b = choose|b: int|
        b < facts.len() && #[trigger] solved_through(facts, rest, one.env, b, solution);
    let two = match_fact(second, facts[b], one.env);
    assert(rest.drop_first() =~= Seq::<Seq<TermView>>::empty());
    let last = solutions(facts, rest.drop_first(), two.env);
    assert(last == seq![two.env]);
    let at = choose|at: int| 0 <= at < last.len() && last[at] == solution;
    assert(two.env == solution);
    assert(is_ground(facts[a]));
    assert(is_ground(facts[b]));
    lemma_match_fact_keeps(first, facts[a], env);
    lemma_walked_variable_is_bound(first, facts[a], env, 0, i);
    lemma_match_fact_keeps(second, facts[b], one.env);
    lemma_walked_variable_is_bound(second, facts[b], one.env, 0, j);
    lemma_lookup_extends(two.env, one.env, name);
}

/// A ground pattern matches the facts equal to it and no others, and binds
/// nothing.
pub proof fn lemma_ground_pattern(
    pattern: Seq<TermView>,
    concrete: Seq<TermView>,
    env: Seq<BindingView>,
)
    requires
        pattern.len() > 0,
        is_ground(pattern),
    ensures
        match_fact(pattern, concrete, env) == (Outcome { matched: pattern == concrete, env }),
{
    if arity_fits(pattern, concrete) {
        lemma_ground_pattern_from(pattern, concrete, env, 0);
        assert(pattern.skip(0) =~= pattern);
        assert(concrete.skip(0) =~= concrete);
    } else {
        assert(!(pattern.last() is Postfix));
    }
}

proof fn lemma_ground_pattern_from(
    pattern: Seq<TermView>,
    concrete: Seq<TermView>,
    env: Seq<BindingView>,
    at: int,
)
    requires
        0 <= at <= pattern.len(),
        pattern.len() == concrete.len(),
        is_ground(pattern),
    ensures
        match_from(pattern, concrete, env, at) == (Outcome {
            matched: pattern.skip(at) == concrete.skip(at),
            env,
        }),
    decreases pattern.len() - at,
{
    if at == pattern.len() {
        assert(pattern.skip(at) =~= concrete.skip(at));
    } else {
        assert(pattern[at].is_literal());
        assert(pattern.skip(at)[0] == pattern[at]);
        assert(concrete.skip(at)[0] == concrete[at]);
        if pattern[at] == concrete[at] {
            lemma_ground_pattern_from(pattern, concrete, env, at + 1);
            assert(pattern.skip(at).drop_first() =~= pattern.skip(at + 1));
            assert(concrete.skip(at).drop_first() =~= concrete.skip(at + 1));
            if pattern.skip(at + 1) == concrete.skip(at + 1) {
                assert(pattern.skip(at) =~= seq![pattern[at]] + pattern.skip(at + 1));
                assert(concrete.skip(at) =~= seq![concrete[at]] + concrete.skip(at + 1));
            }
        }
    }
}

/// The solutions of a query of one clause over the first `n` facts do not
/// depend on the facts behind them.
pub proof fn lemma_one_clause_among(
    facts: Seq<Seq<TermView>>,
    more: Seq<Seq<TermView>>,
    clause: Seq<TermView>,
    env: Seq<BindingView>,
    n: nat,
)
    requires
        n <= facts.len(),
    ensures
        solutions_among(facts + more, seq![clause], env, n) == solutions_among(
            facts,
            seq![clause],
            env,
            n,
        ),
    decreases n,
{
    if n > 0 {
        let query = seq![clause];
        lemma_one_clause_among(facts, more, clause, env, (n - 1) as nat);
        assert((facts + more)[n - 1] == facts[n - 1]);
        let one = match_fact(query[0], facts[n - 1], env);
        assert(query.drop_first().len() == 0);
        assert(solutions(facts + more, query.drop_first(), one.env) == seq![one.env]);
        assert(solutions(facts, query.drop_first(), one.env) == seq![one.env]);
    }
}

/// Claiming adds what the new fact gives: the solutions of a query of one
/// clause over a store with one more fact are those over the store before,
/// and behind them the bindings under which the clause matches the new
/// fact, if it does.
pub proof fn lemma_claim_adds_solution(
    facts: Seq<Seq<TermView>>,
    fact: Seq<TermView>,
    clause: Seq<TermView>,
    env: Seq<BindingView>,
)
    ensures
        solutions(facts.push(fact), seq![clause], env) == if match_fact(clause, fact, env).matched {
            solutions(facts, seq![clause], env).push(match_fact(clause, fact, env).env)
        } else {
            solutions(facts, seq![clause], env)
        },
{
    let query = seq![clause];
    assert(facts.push(fact) =~= facts + seq![fact]);
    lemma_one_clause_among(facts, seq![fact], clause, env, facts.len());
    let all = facts.push(fact);
    let one = match_fact(clause, fact, env);
    assert(query.drop_first().len() == 0);
    assert(solutions(all, query.drop_first(), one.env) == seq![one.env]);
    assert(all[facts.len() as int] == fact);
    assert(solutions(all, query, env) == solutions_among(all, query, env, all.len()));
    assert(solutions_among(all, query, env, facts.len()) == solutions(facts, query, env));
    if one.matched {
        assert(solutions(facts, query, env) + seq![one.env] =~= solutions(facts, query, env).push(
            one.env,
        ));
    }
}

/// Claim, then select: after a ground fact is claimed, the query for
/// exactly that fact has one solution more than before, the bindings it
/// started from. A fact claimed twice gives two.
pub proof fn lemma_claim_then_select(
    facts: Seq<Seq<TermView>>,
    fact: Seq<TermView>,
    env: Seq<BindingView>,
)
    requires
        fact.len() > 0,
        is_ground(fact),
    ensures
        solutions(facts.push(fact), seq![fact], env) == solutions(facts, seq![fact], env).push(env),
        solutions(facts.push(fact).push(fact), seq![fact], env) == solutions(
            facts,
            seq![fact],
            env,
        ).push(env).push(env),
{
    lemma_ground_pattern(fact, fact, env);
    lemma_claim_adds_solution(facts, fact, fact, env);
    lemma_claim_adds_solution(facts.push(fact), fact, fact, env);
}

/// Every solution keeps the bindings that the query started from, binds no
/// name twice and leaves no binding without a name, if that held of the
/// bindings it started from.
pub proof fn lemma_solutions_keep(
    facts: Seq<Seq<TermView>>,
    query: Seq<Seq<TermView>>,
    env: Seq<BindingView>,
    solution: Seq<BindingView>,
)
    requires
        solutions(facts, query, env).contains(solution),
    ensures
        extends(solution, env),
        unique_names(env) ==> unique_names(solution),
        named(env) ==> named(solution),
        binds_literals(env) && all_ground(facts) ==> binds_literals(solution),
    decreases query.len(),
{
    if query.len() == 0 {
        let all = solutions(facts, query, env);
        let at = choose|at: int| 0 <= at < all.len() && all[at] == solution;
        assert(solution == env);
        assert(env.take(env.len() as int) =~= env);
    } else {
        lemma_solution_of_first_clause(facts, query, env, facts.len(), solution);
        let k = choose|k: int|
            k < facts.len() && #[trigger] solved_through(facts, query, env, k, solution);
        let one = match_fact(query[0], facts[k], env);
        lemma_match_fact_keeps(query[0], facts[k], env);
        lemma_solutions_keep(facts, query.drop_first(), one.env, solution);
        assert(solution.take(env.len() as int) =~= solution.take(one.env.len() as int).take(
            env.len() as int,
        ));
        if all_ground(facts) {
            assert(is_ground(facts[k]));
        }
    }
}

/// What [`lemma_solutions_keep`] says, of all solutions at once.
pub proof fn lemma_all_solutions_keep(
    facts: Seq<Seq<TermView>>,
    query: Seq<Seq<TermView>>,
    env: Seq<BindingView>,
)
    ensures
        forall|k: int|
            0 <= k < solutions(facts, query, env).len() ==> {
                let solution = #[trigger] solutions(facts, query, env)[k];
                &&& extends(solution, env)
                &&& unique_names(env) ==> unique_names(solution)
                &&& named(env) ==> named(solution)
                &&& binds_literals(env) && all_ground(facts) ==> binds_literals(solution)
            },
{
    let all = solutions(facts, query, env);
    assert forall|k: int| 0 <= k < all.len() implies {
        let solution = #[trigger] all[k];
        &&& extends(solution, env)
        &&& unique_names(env) ==> unique_names(solution)
        &&& named(env) ==> named(solution)
        &&& binds_literals(env) && all_ground(facts) ==> binds_literals(solution)
    } by {
        assert(all.contains(all[k]));
        lemma_solutions_keep(facts, query, env, all[k]);
    }
}

} // verus!
