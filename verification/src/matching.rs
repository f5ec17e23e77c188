//! The model of matching: what it means for a pattern to match a fact under
//! a set of bindings, and for a query of several patterns to be solved over
//! a list of facts.

use crate::fact::{render_fact, TermView};
use vstd::prelude::*;

verus! {

/// A variable's name and the term it is bound to.
pub struct BindingView {
    pub name: Seq<char>,
    pub term: TermView,
}

/// What a match returns: whether the pattern matched, and the bindings as
/// the match left them.
pub struct Outcome {
    pub matched: bool,
    pub env: Seq<BindingView>,
}

/// The term bound to `name`: that of the first binding with this name.
pub open spec fn lookup(env: Seq<BindingView>, name: Seq<char>) -> Option<TermView>
    decreases env.len(),
{
    if env.len() == 0 {
        None
    } else if env[0].name == name {
        Some(env[0].term)
    } else {
        lookup(env.drop_first(), name)
    }
}

/// Whether no name is bound twice.
pub open spec fn unique_names(env: Seq<BindingView>) -> bool {
    forall|i: int, j: int|
        0 <= i < j < env.len() ==> (#[trigger] env[i]).name != (#[trigger] env[j]).name
}

/// Whether every binding has a name.
pub open spec fn named(env: Seq<BindingView>) -> bool {
    forall|i: int| 0 <= i < env.len() ==> (#[trigger] env[i]).name.len() > 0
}

/// Whether every binding holds a literal.
pub open spec fn binds_literals(env: Seq<BindingView>) -> bool {
    forall|i: int| 0 <= i < env.len() ==> (#[trigger] env[i]).term.is_literal()
}

/// Whether every term of `fact` is a literal, as in a fact that is no
/// pattern.
pub open spec fn is_ground(fact: Seq<TermView>) -> bool {
    forall|i: int| 0 <= i < fact.len() ==> (#[trigger] fact[i]).is_literal()
}

/// Whether every fact in `facts` is ground.
pub open spec fn all_ground(facts: Seq<Seq<TermView>>) -> bool {
    forall|i: int| 0 <= i < facts.len() ==> is_ground(#[trigger] facts[i])
}

/// Whether `env` starts with the bindings of `before`, in their order.
pub open spec fn extends(env: Seq<BindingView>, before: Seq<BindingView>) -> bool {
    before.len() <= env.len() && env.take(before.len() as int) == before
}

/// `env` with `name` bound to `term` behind the bindings it has.
pub open spec fn bind(env: Seq<BindingView>, name: Seq<char>, term: TermView) -> Seq<
    BindingView,
> {
    env.push(BindingView { name, term })
}

/// Matches one term, following at most `fuel` bindings.
///
/// A placeholder without a name matches anything and binds nothing. A
/// placeholder whose name is bound stands for the bound term, which is
/// matched in its place. One whose name is free is bound to `concrete`.
/// Any other term matches only itself. `None` is no match; then nothing is
/// bound.
pub open spec fn match_term_within(
    pattern: TermView,
    concrete: TermView,
    env: Seq<BindingView>,
    fuel: nat,
) -> Option<Seq<BindingView>>
    decreases fuel,
{
    if pattern.is_placeholder() {
        let name = pattern.name();
        if name.len() == 0 {
            Some(env)
        } else {
            match lookup(env, name) {
                Some(bound) => if fuel == 0 {
                    None
                } else {
                    match_term_within(bound, concrete, env, (fuel - 1) as nat)
                },
                None => Some(bind(env, name, concrete)),
            }
        }
    } else if pattern == concrete {
        Some(env)
    } else {
        None
    }
}

/// Matches one term under `env`.
///
/// A bound name may itself be bound to a placeholder, and so on. Such a
/// chain is followed through as many bindings as `env` holds; a longer one
/// has come back to a name it has seen and would never end: it is no match.
pub open spec fn match_term(pattern: TermView, concrete: TermView, env: Seq<BindingView>) -> Option<
    Seq<BindingView>,
> {
    match_term_within(pattern, concrete, env, env.len())
}

/// The text term that a postfix at position `from` stands for: the terms of
/// `concrete` from there to its end, rendered as one text.
pub open spec fn rest_term(concrete: Seq<TermView>, from: int) -> TermView {
    TermView::Text(render_fact(concrete.skip(from)))
}

/// Whether a fact has a length that the pattern can match: at least the
/// pattern's where the pattern ends in a postfix, else exactly the
/// pattern's. An empty pattern fits nothing.
pub open spec fn arity_fits(pattern: Seq<TermView>, concrete: Seq<TermView>) -> bool {
    pattern.len() > 0 && if pattern.last() is Postfix {
        pattern.len() <= concrete.len()
    } else {
        pattern.len() == concrete.len()
    }
}

/// Matches the terms of `pattern` from position `at` on, left to right. A
/// postfix is matched against the rest of the fact as one text and ends
/// the walk: what follows it in the pattern is not looked at.
pub open spec fn match_from(
    pattern: Seq<TermView>,
    concrete: Seq<TermView>,
    env: Seq<BindingView>,
    at: int,
) -> Outcome
    decreases pattern.len() - at,
{
    if at < 0 || at >= pattern.len() {
        Outcome { matched: true, env }
    } else if pattern[at] is Postfix {
        match match_term(pattern[at], rest_term(concrete, at), env) {
            Some(bound) => Outcome { matched: true, env: bound },
            None => Outcome { matched: false, env },
        }
    } else {
        match match_term(pattern[at], concrete[at], env) {
            Some(bound) => match_from(pattern, concrete, bound, at + 1),
            None => Outcome { matched: false, env },
        }
    }
}

/// Matches a pattern against a fact under `env`. Where the match fails, the
/// bindings made before the term that failed remain.
pub open spec fn match_fact(
    pattern: Seq<TermView>,
    concrete: Seq<TermView>,
    env: Seq<BindingView>,
) -> Outcome {
    if arity_fits(pattern, concrete) {
        match_from(pattern, concrete, env, 0)
    } else {
        Outcome { matched: false, env }
    }
}

/// The solutions of `query` under `env`: every way to match its clauses, in
/// order, each against some fact of `facts`, every clause under the
/// bindings of those before it. Solutions come in the order of the facts
/// chosen, the first clause's choice counting most. A query without clauses
/// has the one solution `env`.
pub open spec fn solutions(
    facts: Seq<Seq<TermView>>,
    query: Seq<Seq<TermView>>,
    env: Seq<BindingView>,
) -> Seq<Seq<BindingView>>
    decreases query.len(), facts.len() + 1,
{
    if query.len() == 0 {
        seq![env]
    } else {
        solutions_among(facts, query, env, facts.len())
    }
}

/// The solutions of a query with at least one clause in which the first
/// clause is matched by one of the first `n` facts.
pub open spec fn solutions_among(
    facts: Seq<Seq<TermView>>,
    query: Seq<Seq<TermView>>,
    env: Seq<BindingView>,
    n: nat,
) -> Seq<Seq<BindingView>>
    decreases query.len(), n,
{
    if n == 0 || n > facts.len() || query.len() == 0 {
        Seq::empty()
    } else {
        let earlier = solutions_among(facts, query, env, (n - 1) as nat);
        let first = match_fact(query[0], facts[n - 1], env);
        if first.matched {
            earlier + solutions(facts, query.drop_first(), first.env)
        } else {
            earlier
        }
    }
}

/// The facts of `facts` that `pattern` does not match, in their order. Each
/// fact is matched on its own, with no bindings to start from.
pub open spec fn unmatched(facts: Seq<Seq<TermView>>, pattern: Seq<TermView>) -> Seq<
    Seq<TermView>,
> {
    facts.filter(|fact: Seq<TermView>| !match_fact(pattern, fact, Seq::empty()).matched)
}

/// Bindings in front of the first one with the name do not count.
pub proof fn lemma_lookup_skip(env: Seq<BindingView>, name: Seq<char>, n: int)
    requires
        0 <= n <= env.len(),
        forall|k: int| 0 <= k < n ==> (#[trigger] env[k]).name != name,
    ensures
        lookup(env, name) == lookup(env.skip(n), name),
    decreases n,
{
    if n == 0 {
        assert(env.skip(0) =~= env);
    } else {
        let rest = env.drop_first();
        assert(env[0].name != name);
        assert forall|k: int| 0 <= k < n - 1 implies (#[trigger] rest[k]).name != name by {
            assert(rest[k] == env[k + 1]);
        }
        lemma_lookup_skip(rest, name, n - 1);
        assert(rest.skip(n - 1) =~= env.skip(n));
    }
}

/// A name is bound exactly when some binding has it, and then to the term
/// of one of them.
pub proof fn lemma_lookup_some(env: Seq<BindingView>, name: Seq<char>)
    ensures
        lookup(env, name) is None <==> forall|k: int|
            0 <= k < env.len() ==> (#[trigger] env[k]).name != name,
        lookup(env, name) matches Some(term) ==> exists|k: int|
            0 <= k < env.len() && (#[trigger] env[k]).name == name && env[k].term == term,
    decreases env.len(),
{
    if env.len() == 0 {
    } else if env[0].name == name {
    } else {
        let rest = env.drop_first();
        lemma_lookup_some(rest, name);
        if lookup(env, name) is None {
            assert forall|k: int| 0 <= k < env.len() implies (#[trigger] env[k]).name != name by {
                if k > 0 {
                    assert(env[k] == rest[k - 1]);
                }
            }
        } else {
            let k = choose|k: int|
                0 <= k < rest.len() && (#[trigger] rest[k]).name == name && rest[k].term == lookup(
                    env,
                    name,
                )->0;
            assert(env[k + 1] == rest[k]);
        }
    }
}

/// Bindings added behind do not change what a bound name stands for.
pub proof fn lemma_lookup_extends(env: Seq<BindingView>, before: Seq<BindingView>, name: Seq<char>)
    requires
        extends(env, before),
        lookup(before, name) is Some,
    ensures
        lookup(env, name) == lookup(before, name),
    decreases before.len(),
{
    if before.len() == 0 {
    } else {
        assert(env.take(before.len() as int)[0] == env[0]);
        if before[0].name == name {
        } else {
            let rest = before.drop_first();
            assert(env.drop_first().take(rest.len() as int) =~= rest);
            lemma_lookup_extends(env.drop_first(), rest, name);
        }
    }
}

/// A binding pushed for a free name is found under that name, and changes
/// no other name.
pub proof fn lemma_lookup_push(env: Seq<BindingView>, binding: BindingView, name: Seq<char>)
    ensures
        lookup(env.push(binding), name) == if lookup(env, name) is Some {
            lookup(env, name)
        } else if binding.name == name {
            Some(binding.term)
        } else {
            None
        },
    decreases env.len(),
{
    let all = env.push(binding);
    if env.len() == 0 {
        assert(all.drop_first() =~= Seq::<BindingView>::empty());
        assert(lookup(all.drop_first(), name) is None);
    } else {
        assert(all[0] == env[0]);
        if env[0].name == name {
        } else {
            assert(all.drop_first() =~= env.drop_first().push(binding));
            lemma_lookup_push(env.drop_first(), binding, name);
        }
    }
}

/// What matching a term can do to the bindings: nothing, or add one binding
/// of a free name to the concrete term.
pub proof fn lemma_match_term_within_effect(
    pattern: TermView,
    concrete: TermView,
    env: Seq<BindingView>,
    fuel: nat,
)
    ensures
        match_term_within(pattern, concrete, env, fuel) matches Some(after) ==> after == env || (
        exists|name: Seq<char>|
            name.len() > 0 && lookup(env, name) is None && after == #[trigger] bind(
                env,
                name,
                concrete,
            )),
    decreases fuel,
{
    if pattern.is_placeholder() {
        let name = pattern.name();
        if name.len() > 0 {
            match lookup(env, name) {
                Some(bound) => {
                    if fuel > 0 {
                        lemma_match_term_within_effect(bound, concrete, env, (fuel - 1) as nat);
                    }
                },
                None => {},
            }
        }
    }
}

/// Matching a term keeps the bindings there were, keeps names unique and
/// non-empty, and binds literals only where the concrete term is one.
pub proof fn lemma_match_term_keeps(pattern: TermView, concrete: TermView, env: Seq<BindingView>)
    ensures
        match_term(pattern, concrete, env) matches Some(after) ==> {
            &&& extends(after, env)
            &&& unique_names(env) ==> unique_names(after)
            &&& named(env) ==> named(after)
            &&& binds_literals(env) && concrete.is_literal() ==> binds_literals(after)
        },
{
    lemma_match_term_within_effect(pattern, concrete, env, env.len());
    if let Some(after) = match_term(pattern, concrete, env) {
        if after == env {
            assert(env.take(env.len() as int) =~= env);
        } else {
            let name = choose|name: Seq<char>|
                name.len() > 0 && lookup(env, name) is None && after == #[trigger] bind(
                    env,
                    name,
                    concrete,
                );
            lemma_lookup_some(env, name);
            assert(after.take(env.len() as int) =~= env);
        }
    }
}

/// Matching a fact keeps the bindings there were, whether it succeeds or
/// not, keeps names unique and non-empty, and binds literals only where
/// the fact is ground.
pub proof fn lemma_match_from_keeps(
    pattern: Seq<TermView>,
    concrete: Seq<TermView>,
    env: Seq<BindingView>,
    at: int,
)
    requires
        0 <= at,
    ensures
        extends(match_from(pattern, concrete, env, at).env, env),
        unique_names(env) ==> unique_names(match_from(pattern, concrete, env, at).env),
        named(env) ==> named(match_from(pattern, concrete, env, at).env),
        binds_literals(env) && is_ground(concrete) && pattern.len() <= concrete.len()
            ==> binds_literals(match_from(pattern, concrete, env, at).env),
    decreases pattern.len() - at,
{
    assert(env.take(env.len() as int) =~= env);
    if at >= pattern.len() {
    } else if pattern[at] is Postfix {
        lemma_match_term_keeps(pattern[at], rest_term(concrete, at), env);
    } else {
        lemma_match_term_keeps(pattern[at], concrete[at], env);
        match match_term(pattern[at], concrete[at], env) {
            Some(bound) => {
                lemma_match_from_keeps(pattern, concrete, bound, at + 1);
                let after = match_from(pattern, concrete, bound, at + 1).env;
                assert(after.take(env.len() as int) =~= after.take(bound.len() as int).take(
                    env.len() as int,
                ));
            },
            None => {},
        }
    }
}

/// Matching a fact keeps the bindings there were, whether it succeeds or
/// not, keeps names unique and non-empty, and binds literals only where
/// the fact is ground.
pub proof fn lemma_match_fact_keeps(
    pattern: Seq<TermView>,
    concrete: Seq<TermView>,
    env: Seq<BindingView>,
)
    ensures
        extends(match_fact(pattern, concrete, env).env, env),
        unique_names(env) ==> unique_names(match_fact(pattern, concrete, env).env),
        named(env) ==> named(match_fact(pattern, concrete, env).env),
        binds_literals(env) && is_ground(concrete) ==> binds_literals(
            match_fact(pattern, concrete, env).env,
        ),
{
    assert(env.take(env.len() as int) =~= env);
    if arity_fits(pattern, concrete) {
        lemma_match_from_keeps(pattern, concrete, env, 0);
    }
}

} // verus!
