//! The fact store: facts that can be claimed, retracted and queried by
//! patterns, and the subscriptions that are kept with them.

use crate::fact::{parse_fact, render_fact, render_term, Fact, Term, TermView};
use crate::laws::lemma_all_solutions_keep;
use crate::matching::{
    bind, extends, lemma_lookup_skip, lemma_match_fact_keeps, lemma_match_term_keeps, lookup,
    match_fact, match_from, match_term, match_term_within, solutions, solutions_among,
    unique_names, unmatched, BindingView,
};
use crate::text::texts;
use mlua::RegistryKey;
use vstd::prelude::*;
use vstd::std_specs::cmp::PartialEqSpec;
use vstd::std_specs::iter::IteratorSpec;
use vstd::string::StringExecFns;

verus! {

/// A variable's name and the term it was bound to.
#[derive(Debug)]
pub struct QueryResultVariable {
    pub variable_name: String,
    pub term: Term,
}

impl View for QueryResultVariable {
    type V = BindingView;

    open spec fn view(&self) -> BindingView {
        BindingView { name: self.variable_name@, term: self.term@ }
    }
}

impl Clone for QueryResultVariable {
    fn clone(&self) -> (out: Self)
        ensures
            out == *self,
    {
        QueryResultVariable { variable_name: self.variable_name.clone(), term: self.term.clone() }
    }
}

impl PartialEq for QueryResultVariable {
    fn eq(&self, other: &Self) -> (equal: bool) {
        self.variable_name == other.variable_name && self.term == other.term
    }
}

impl Eq for QueryResultVariable {

}

impl vstd::std_specs::cmp::PartialEqSpecImpl for QueryResultVariable {
    open spec fn obeys_eq_spec() -> bool {
        true
    }

    /// Two bindings are equal when they bind the same name to equal terms.
    open spec fn eq_spec(&self, other: &Self) -> bool {
        self@ == other@
    }
}

/// The views of the bindings in `bindings`.
pub open spec fn binding_views(bindings: Seq<QueryResultVariable>) -> Seq<BindingView> {
    bindings.map_values(|binding: QueryResultVariable| binding@)
}

/// The bindings of one solution of a query, in the order in which the
/// variables were first bound.
#[derive(Debug)]
pub struct QueryResult {
    pub result: Vec<QueryResultVariable>,
}

impl View for QueryResult {
    type V = Seq<BindingView>;

    open spec fn view(&self) -> Seq<BindingView> {
        binding_views(self.result@)
    }
}

impl Clone for QueryResult {
    fn clone(&self) -> (out: Self)
        ensures
            out@ == self@,
    {
        let mut result: Vec<QueryResultVariable> = Vec::new();
        let mut i: usize = 0;
        while i < self.result.len()
            invariant
                i <= self.result.len(),
                result@ == self.result@.take(i as int),
            decreases self.result.len() - i,
        {
            result.push(self.result[i].clone());
            proof {
                assert(self.result@.take(i + 1) =~= self.result@.take(i as int).push(
                    self.result[i as int],
                ));
            }
            i = i + 1;
        }
        proof {
            assert(self.result@.take(i as int) =~= self.result@);
        }
        QueryResult { result }
    }
}

impl PartialEq for QueryResult {
    fn eq(&self, other: &Self) -> (equal: bool) {
        let equal = self.result == other.result;
        proof {
            if equal {
                assert(self@ =~= other@);
            } else if self.result.len() == other.result.len() {
                let i = choose|i: int|
                    0 <= i < self.result.len() && !(#[trigger] self.result[i]).eq_spec(
                        &other.result[i],
                    );
                assert(self@[i] != other@[i]);
            } else {
                assert(self@.len() != other@.len());
            }
        }
        equal
    }
}

impl Eq for QueryResult {

}

impl vstd::std_specs::cmp::PartialEqSpecImpl for QueryResult {
    open spec fn obeys_eq_spec() -> bool {
        true
    }

    /// Two results are equal when they hold equal bindings in the same
    /// order.
    open spec fn eq_spec(&self, other: &Self) -> bool {
        self@ == other@
    }
}

impl QueryResult {
    /// A result without bindings.
    pub fn new() -> (out: Self)
        ensures
            out@ == Seq::<BindingView>::empty(),
    {
        let out = QueryResult { result: Vec::new() };
        proof {
            assert(out@ =~= Seq::<BindingView>::empty());
        }
        out
    }

    /// Where the first binding of `name` stands.
    fn position(&self, name: &String) -> (found: Option<usize>)
        ensures
            found is Some == lookup(self@, name@) is Some,
            found matches Some(i) ==> i < self.result.len() && lookup(self@, name@) == Some(
                self.result[i as int].term@,
            ),
    {
        let mut i: usize = 0;
        while i < self.result.len()
            invariant
                i <= self.result.len(),
                forall|k: int| 0 <= k < i ==> (#[trigger] self@[k]).name != name@,
            decreases self.result.len() - i,
        {
            if self.result[i].variable_name == *name {
                proof {
                    lemma_lookup_skip(self@, name@, i as int);
                    assert(self@.skip(i as int)[0] == self@[i as int]);
                }
                return Some(i);
            }
            i = i + 1;
        }
        proof {
            lemma_lookup_skip(self@, name@, i as int);
        }
        None
    }

    /// Binds `name` to `term` behind the bindings there are.
    fn bind(&mut self, name: &String, term: &Term)
        ensures
            final(self)@ == bind(old(self)@, name@, term@),
    {
        self.result.push(QueryResultVariable { variable_name: name.clone(), term: term.clone() });
        proof {
            assert(self@ =~= bind(old(self)@, name@, term@));
        }
    }
}

/// The views of the facts in `facts`.
pub open spec fn fact_views(facts: Seq<Fact>) -> Seq<Seq<TermView>> {
    facts.map_values(|fact: Fact| fact@)
}

/// The views of the results in `results`.
pub open spec fn result_views(results: Seq<QueryResult>) -> Seq<Seq<BindingView>> {
    results.map_values(|result: QueryResult| result@)
}

/// The solutions of the query whose clauses are written in `query_parts`,
/// starting without bindings.
pub open spec fn select_model(facts: Seq<Seq<TermView>>, query_parts: Seq<Seq<char>>) -> Seq<
    Seq<BindingView>,
> {
    solutions(facts, query_parts.map_values(|part: Seq<char>| parse_fact(part)), Seq::empty())
}

/// The first line of a printed store.
pub open spec fn listing_head() -> Seq<char> {
    "DATABASE:"@.push('\n')
}

/// The printed store: the head line, then one line for each fact.
pub open spec fn listing(facts: Seq<Seq<TermView>>) -> Seq<char>
    decreases facts.len(),
{
    if facts.len() == 0 {
        listing_head()
    } else {
        listing(facts.drop_last()) + render_fact(facts.last()).push('\n')
    }
}

/// `mlua::RegistryKey`: a handle by which the Lua state finds a callback
/// again. The store carries it and never looks inside; nothing is claimed
/// of it.
#[verifier::external_type_specification]
#[verifier::external_body]
pub struct ExRegistryKey(mlua::RegistryKey);

/// A standing query and the callback that is to hear of its solutions.
#[derive(Debug)]
pub struct Subscription {
    /// The program that subscribed.
    pub program_source_id: String,
    /// The clauses of the query, as text.
    pub query_parts: Vec<String>,
    /// The callback's handle.
    pub callback_func: RegistryKey,
    /// Solutions kept from an earlier evaluation.
    pub last_results: Vec<QueryResult>,
}

/// What a [`Subscription`] holds.
pub struct SubscriptionView {
    pub program_source_id: Seq<char>,
    pub query_parts: Seq<Seq<char>>,
    pub callback_func: RegistryKey,
    pub last_results: Seq<Seq<BindingView>>,
}

impl View for Subscription {
    type V = SubscriptionView;

    open spec fn view(&self) -> SubscriptionView {
        SubscriptionView {
            program_source_id: self.program_source_id@,
            query_parts: texts(self.query_parts@),
            callback_func: self.callback_func,
            last_results: result_views(self.last_results@),
        }
    }
}

impl Subscription {
    /// A subscription of the program `program_source_id` to the query
    /// `query_parts`, with no results yet.
    pub fn new(
        program_source_id: &String,
        query_parts: &Vec<String>,
        callback_func: RegistryKey,
    ) -> (out: Self)
        ensures
            out@ == (SubscriptionView {
                program_source_id: program_source_id@,
                query_parts: texts(query_parts@),
                callback_func,
                last_results: Seq::empty(),
            }),
    {
        let parts = query_parts.clone();
        let out = Subscription {
            program_source_id: program_source_id.clone(),
            query_parts: parts,
            callback_func,
            last_results: Vec::new(),
        };
        proof {
            assert(texts(parts@) =~= texts(query_parts@));
            assert(result_views(out.last_results@) =~= Seq::<Seq<BindingView>>::empty());
        }
        out
    }
}

/// The views of the subscriptions in `subscriptions`.
pub open spec fn subscription_views(subscriptions: Seq<Subscription>) -> Seq<SubscriptionView> {
    subscriptions.map_values(|subscription: Subscription| subscription@)
}

/// The subscriptions of `subscriptions` that do not belong to the program
/// `program_source_id`, in their order.
pub open spec fn of_other_programs(
    subscriptions: Seq<SubscriptionView>,
    program_source_id: Seq<char>,
) -> Seq<SubscriptionView> {
    subscriptions.filter(
        |subscription: SubscriptionView| subscription.program_source_id != program_source_id,
    )
}

/// A solution as a callback gets it: each variable's name with the text of
/// the term it is bound to, in the order of binding.
pub open spec fn rendered_bindings(env: Seq<BindingView>) -> Seq<(Seq<char>, Seq<char>)> {
    env.map_values(|binding: BindingView| (binding.name, render_term(binding.term)))
}

/// What each subscription's callback is to be called with, in the order of
/// registration: all solutions of its query, in the solver's order.
pub open spec fn notifications(db: DatabaseView) -> Seq<Seq<Seq<(Seq<char>, Seq<char>)>>> {
    db.subscriptions.map_values(
        |subscription: SubscriptionView|
            select_model(db.facts, subscription.query_parts).map_values(
                |env: Seq<BindingView>| rendered_bindings(env),
            ),
    )
}

/// What a [`Database`] holds: its facts in the order in which they were
/// claimed, and its subscriptions in the order in which they were
/// registered.
pub struct DatabaseView {
    pub facts: Seq<Seq<TermView>>,
    pub subscriptions: Seq<SubscriptionView>,
}

/// The store of facts and subscriptions.
pub struct Database {
    facts: Vec<Fact>,
    pub subscriptions: Vec<Subscription>,
}

impl View for Database {
    type V = DatabaseView;

    closed spec fn view(&self) -> DatabaseView {
        DatabaseView {
            facts: fact_views(self.facts@),
            subscriptions: subscription_views(self.subscriptions@),
        }
    }
}

impl Database {
    /// An empty store.
    pub fn new() -> (out: Self)
        ensures
            out@.facts == Seq::<Seq<TermView>>::empty(),
            out@.subscriptions == Seq::<SubscriptionView>::empty(),
    {
        let out = Database { facts: Vec::new(), subscriptions: Vec::new() };
        proof {
            assert(out@.facts =~= Seq::<Seq<TermView>>::empty());
            assert(out@.subscriptions =~= Seq::<SubscriptionView>::empty());
        }
        out
    }

    /// The facts in the store, in the order in which they were claimed.
    pub fn facts(&self) -> (out: &Vec<Fact>)
        ensures
            fact_views(out@) == self@.facts,
    {
        &self.facts
    }

    /// The subscriptions in the store, in the order in which they were
    /// registered.
    pub fn subscriptions(&self) -> (out: &Vec<Subscription>)
        ensures
            subscription_views(out@) == self@.subscriptions,
    {
        &self.subscriptions
    }

    /// The store as text: a head line, then each fact on a line of its own.
    pub fn print(&self) -> (out: String)
        ensures
            out@ == listing(self@.facts),
    {
        let mut out = String::new();
        out.append("DATABASE:");
        out.push('\n');
        let mut i: usize = 0;
        proof {
            assert(self@.facts.take(0) =~= Seq::<Seq<TermView>>::empty());
        }
        while i < self.facts.len()
            invariant
                i <= self.facts.len(),
                out@ == listing(self@.facts.take(i as int)),
            decreases self.facts.len() - i,
        {
            let line = self.facts[i].to_string();
            out.append(line.as_str());
            out.push('\n');
            proof {
                let upto = self@.facts.take(i + 1);
                assert(upto.drop_last() =~= self@.facts.take(i as int));
                assert(upto.last() == self.facts[i as int]@);
                assert(out@ =~= listing(upto));
            }
            i = i + 1;
        }
        proof {
            assert(self@.facts.take(i as int) =~= self@.facts);
        }
        out
    }

    /// Adds `fact` behind the facts in the store. Nothing is checked and
    /// nothing is left out: a fact claimed twice is stored twice.
    pub fn claim(&mut self, fact: Fact)
        ensures
            final(self)@.facts == old(self)@.facts.push(fact@),
            final(self)@.subscriptions == old(self)@.subscriptions,
    {
        self.facts.push(fact);
        proof {
            assert(self@.facts =~= old(self)@.facts.push(fact@));
        }
    }

    /// Matches the term `a` of a pattern against the term `b` of a fact,
    /// binding in `env` what the match binds.
    pub fn term_match(a: &Term, b: &Term, env: &mut QueryResult) -> (matched: bool)
        ensures
            matched == match_term(a@, b@, old(env)@) is Some,
            final(env)@ == match match_term(a@, b@, old(env)@) {
                Some(after) => after,
                None => old(env)@,
            },
            extends(final(env)@, old(env)@),
            unique_names(old(env)@) ==> unique_names(final(env)@),
    {
        proof {
            lemma_match_term_keeps(a@, b@, env@);
            assert(env@.take(env@.len() as int) =~= env@);
        }
        let fuel = env.result.len();
        Self::term_match_within(a, b, env, fuel)
    }

    fn term_match_within(a: &Term, b: &Term, env: &mut QueryResult, fuel: usize) -> (matched: bool)
        ensures
            matched == match_term_within(a@, b@, old(env)@, fuel as nat) is Some,
            final(env)@ == match match_term_within(a@, b@, old(env)@, fuel as nat) {
                Some(after) => after,
                None => old(env)@,
            },
        decreases fuel,
    {
        match a.placeholder_name() {
            Some(name) => {
                if name.as_str().is_empty() {
                    true
                } else {
                    match env.position(name) {
                        Some(i) => {
                            if fuel == 0 {
                                false
                            } else {
                                let bound = env.result[i].term.clone();
                                Self::term_match_within(&bound, b, env, fuel - 1)
                            }
                        },
                        None => {
                            env.bind(name, b);
                            true
                        },
                    }
                }
            },
            None => *a == *b,
        }
    }

    /// Matches the pattern `fact_a` against the fact `fact_b`, binding in `env`
    /// what the match binds. Where the match fails, the bindings made before
    /// the term that failed stay in `env`.
    pub fn fact_match(fact_a: &Fact, fact_b: &Fact, env: &mut QueryResult) -> (matched: bool)
        ensures
            matched == match_fact(fact_a@, fact_b@, old(env)@).matched,
            final(env)@ == match_fact(fact_a@, fact_b@, old(env)@).env,
            extends(final(env)@, old(env)@),
            unique_names(old(env)@) ==> unique_names(final(env)@),
    {
        proof {
            lemma_match_fact_keeps(fact_a@, fact_b@, env@);
        }
        let n = fact_a.terms.len();
        if n == 0 {
            return false;
        }
        if fact_a.is_postfix_at(n - 1) {
            if n > fact_b.terms.len() {
                return false;
            }
        } else if n != fact_b.terms.len() {
            return false;
        }
        let mut i: usize = 0;
        while i < n
            invariant
                i <= n,
                n == fact_a.terms.len(),
                n <= fact_b.terms.len(),
                match_from(fact_a@, fact_b@, env@, i as int) == match_fact(
                    fact_a@,
                    fact_b@,
                    old(env)@,
                ),
                extends(match_fact(fact_a@, fact_b@, old(env)@).env, old(env)@),
                unique_names(old(env)@) ==> unique_names(match_fact(fact_a@, fact_b@, old(env)@).env),
            decreases n - i,
        {
            if fact_a.is_postfix_at(i) {
                let rest = Term::Text(fact_b.to_string_from(i));
                return Self::term_match(&fact_a.terms[i], &rest, env);
            }
            if !Self::term_match(&fact_a.terms[i], &fact_b.terms[i], env) {
                return false;
            }
            i = i + 1;
        }
        true
    }

    /// Removes every fact that the pattern written in `fact_query_str`
    /// matches. Each fact is matched on its own, with no bindings from the
    /// others. The facts that stay keep their order.
    pub fn retract(&mut self, fact_query_str: &str)
        ensures
            final(self)@.facts == unmatched(old(self)@.facts, parse_fact(fact_query_str@)),
            final(self)@.subscriptions == old(self)@.subscriptions,
    {
        let fact_query = Fact::from_string(fact_query_str);
        let mut before: Vec<Fact> = Vec::new();
        core::mem::swap(&mut self.facts, &mut before);
        let ghost all = fact_views(before@);
        let ghost pattern = fact_query@;
        let ghost keep = |fact: Seq<TermView>| !match_fact(pattern, fact, Seq::empty()).matched;
        proof {
            reveal(Seq::filter);
            assert(all.take(0) =~= Seq::<Seq<TermView>>::empty());
            assert(fact_views(self.facts@) =~= Seq::<Seq<TermView>>::empty());
        }
        for fact in it: before
            invariant
                it.seq() == before@,
                all == fact_views(before@),
                pattern == fact_query@,
                keep == |fact: Seq<TermView>| !match_fact(pattern, fact, Seq::empty()).matched,
                fact_views(self.facts@) == all.take(it.index() as int).filter(keep),
                self.subscriptions == old(self).subscriptions,
        {
            let ghost seen = it.index() as int;
            proof {
                assert(all.take(seen + 1) =~= all.take(seen).push(fact@));
                all.take(seen).lemma_filter_push(fact@, keep);
            }
            let mut env = QueryResult::new();
            if !Self::fact_match(&fact_query, &fact, &mut env) {
                proof {
                    assert(fact_views(self.facts@.push(fact)) =~= fact_views(self.facts@).push(
                        fact@,
                    ));
                }
                self.facts.push(fact);
            }
        }
        proof {
            assert(all.take(all.len() as int) =~= all);
        }
    }

    /// The solutions of `query` under the bindings `env`.
    ///
    /// The facts are tried against the first clause in the order in which
    /// they were claimed; for each that matches, the solutions of the other
    /// clauses under the bindings it made follow, before the next fact is
    /// tried. Equal solutions are not merged.
    pub fn collect_solutions(&self, query: &[Fact], env: &QueryResult) -> (found: Vec<QueryResult>)
        ensures
            result_views(found@) == solutions(self@.facts, fact_views(query@), env@),
            forall|k: int|
                0 <= k < found.len() ==> extends((#[trigger] found[k])@, env@) && (unique_names(
                    env@,
                ) ==> unique_names(found[k]@)),
        decreases query.len(),
    {

        let mut found: Vec<QueryResult> = Vec::new();
        let ghost facts = self@.facts;
        let ghost clauses = fact_views(query@);
        if query.len() == 0 {
            found.push(env.clone());
            proof {
                assert(result_views(found@) =~= seq![env@]);
                assert(env@.take(env@.len() as int) =~= env@);
            }
            return found;
        }
        let rest = &query[1..query.len()];
        proof {
            assert(fact_views(rest@) =~= clauses.drop_first());
            assert(result_views(found@) =~= Seq::<Seq<BindingView>>::empty());
        }
        let mut i: usize = 0;
        while i < self.facts.len()
            invariant
                i <= self.facts.len(),
                facts == self@.facts,
                facts.len() == self.facts.len(),
                clauses == fact_views(query@),
                query.len() > 0,
                fact_views(rest@) == clauses.drop_first(),
                rest.len() < query.len(),
                result_views(found@) == solutions_among(facts, clauses, env@, i as nat),
            decreases self.facts.len() - i,
        {
            let mut new_env = env.clone();
            if Self::fact_match(&query[0], &self.facts[i], &mut new_env) {
                let mut more = self.collect_solutions(rest, &new_env);
                proof {
                    assert(result_views(found@ + more@) =~= result_views(found@) + result_views(
                        more@,
                    ));
                }
                found.append(&mut more);
            }
            i = i + 1;
        }
        proof {
            lemma_all_solutions_keep(facts, clauses, env@);
            assert(result_views(found@) == solutions(facts, clauses, env@));
            assert forall|k: int| 0 <= k < found.len() implies extends(
                (#[trigger] found[k])@,
                env@,
            ) && (unique_names(env@) ==> unique_names(found[k]@)) by {
                assert(found[k]@ == result_views(found@)[k]);
                assert(found[k]@ == solutions(facts, clauses, env@)[k]);
            }
        }
        found
    }

    /// The solutions of the query whose clauses are written in
    /// `query_parts`, starting without bindings. The store is left as it
    /// is.
    pub fn select(&self, query_parts: &Vec<String>) -> (found: Vec<QueryResult>)
        ensures
            result_views(found@) == select_model(self@.facts, texts(query_parts@)),
            forall|k: int| 0 <= k < found.len() ==> unique_names((#[trigger] found[k])@),
    {
        let mut query: Vec<Fact> = Vec::new();
        let mut i: usize = 0;
        let ghost clauses = texts(query_parts@).map_values(|part: Seq<char>| parse_fact(part));
        while i < query_parts.len()
            invariant
                i <= query_parts.len(),
                query.len() == i,
                clauses == texts(query_parts@).map_values(|part: Seq<char>| parse_fact(part)),
                forall|k: int| 0 <= k < i ==> (#[trigger] query[k])@ == clauses[k],
            decreases query_parts.len() - i,
        {
            query.push(Fact::from_string(query_parts[i].as_str()));
            i = i + 1;
        }
        proof {
            assert(fact_views(query@) =~= clauses);
        }
        let env = QueryResult::new();
        self.collect_solutions(query.as_slice(), &env)
    }

    /// Registers a subscription of the program `program_source_id` to the
    /// query `query_parts`, behind the subscriptions there are.
    pub fn register(
        &mut self,
        program_source_id: &String,
        query_parts: &Vec<String>,
        callback_func: RegistryKey,
    )
        ensures
            final(self)@.facts == old(self)@.facts,
            final(self)@.subscriptions == old(self)@.subscriptions.push(
                SubscriptionView {
                    program_source_id: program_source_id@,
                    query_parts: texts(query_parts@),
                    callback_func,
                    last_results: Seq::empty(),
                },
            ),
    {
        let subscription = Subscription::new(program_source_id, query_parts, callback_func);
        self.subscriptions.push(subscription);
        proof {
            assert(self@.subscriptions =~= old(self)@.subscriptions.push(subscription@));
        }
    }

    /// Removes every subscription of the program `program_source_id`. The
    /// others keep their order.
    pub fn remove_subscriptions_by_program(&mut self, program_source_id: &String)
        ensures
            final(self)@.facts == old(self)@.facts,
            final(self)@.subscriptions == of_other_programs(
                old(self)@.subscriptions,
                program_source_id@,
            ),
    {
        let mut before: Vec<Subscription> = Vec::new();
        core::mem::swap(&mut self.subscriptions, &mut before);
        let ghost all = subscription_views(before@);
        let ghost keep = |subscription: SubscriptionView|
            subscription.program_source_id != program_source_id@;
        proof {
            reveal(Seq::filter);
            assert(all.take(0) =~= Seq::<SubscriptionView>::empty());
            assert(subscription_views(self.subscriptions@) =~= Seq::<SubscriptionView>::empty());
        }
        for subscription in it: before
            invariant
                it.seq() == before@,
                all == subscription_views(before@),
                keep == |subscription: SubscriptionView|
                    subscription.program_source_id != program_source_id@,
                subscription_views(self.subscriptions@) == all.take(it.index() as int).filter(keep),
                self.facts == old(self).facts,
        {
            let ghost seen = it.index() as int;
            proof {
                assert(all.take(seen + 1) =~= all.take(seen).push(subscription@));
                all.take(seen).lemma_filter_push(subscription@, keep);
            }
            if subscription.program_source_id != *program_source_id {
                proof {
                    assert(subscription_views(self.subscriptions@.push(subscription))
                        =~= subscription_views(self.subscriptions@).push(subscription@));
                }
                self.subscriptions.push(subscription);
            }
        }
        proof {
            assert(all.take(all.len() as int) =~= all);
        }
    }

    /// The solutions of the query written in `query_parts`, each as a
    /// callback gets it.
    pub fn select_rendered(&self, query_parts: &Vec<String>) -> (out: Vec<Vec<(String, String)>>)
        ensures
            out.deep_view() == select_model(self@.facts, texts(query_parts@)).map_values(
                |env: Seq<BindingView>| rendered_bindings(env),
            ),
    {
        let found = self.select(query_parts);
        let ghost model = select_model(self@.facts, texts(query_parts@));
        let mut out: Vec<Vec<(String, String)>> = Vec::new();
        let mut i: usize = 0;
        while i < found.len()
            invariant
                i <= found.len(),
                out.len() == i,
                result_views(found@) == model,
                forall|k: int|
                    0 <= k < i ==> (#[trigger] out[k]).deep_view() == rendered_bindings(model[k]),
            decreases found.len() - i,
        {
            let solution = &found[i];
            let ghost env = solution@;
            proof {
                assert(env == result_views(found@)[i as int]);
            }
            let mut pairs: Vec<(String, String)> = Vec::new();
            let mut j: usize = 0;
            while j < solution.result.len()
                invariant
                    j <= solution.result.len(),
                    pairs.len() == j,
                    env == solution@,
                    forall|k: int|
                        0 <= k < j ==> (#[trigger] pairs[k]).deep_view() == rendered_bindings(
                            env,
                        )[k],
                decreases solution.result.len() - j,
            {
                let binding = &solution.result[j];
                pairs.push((binding.variable_name.clone(), binding.term.to_string()));
                j = j + 1;
            }
            proof {
                assert(pairs.deep_view() =~= rendered_bindings(env));
            }
            out.push(pairs);
            i = i + 1;
        }
        proof {
            assert(out.deep_view() =~= model.map_values(
                |env: Seq<BindingView>| rendered_bindings(env),
            ));
        }
        out
    }

    /// What each subscription's callback is to be called with, in the
    /// order of registration: all solutions of the subscription's query.
    /// The store is left as it is, and no callback is called: that is for
    /// the caller to do, once it has let go of the store.
    pub fn evaluate_subscriptions(&self) -> (out: Vec<Vec<Vec<(String, String)>>>)
        ensures
            out.deep_view() == notifications(self@),
    {
        let mut out: Vec<Vec<Vec<(String, String)>>> = Vec::new();
        let mut i: usize = 0;
        while i < self.subscriptions.len()
            invariant
                i <= self.subscriptions.len(),
                out.len() == i,
                forall|k: int|
                    0 <= k < i ==> (#[trigger] out[k]).deep_view() == notifications(self@)[k],
            decreases self.subscriptions.len() - i,
        {
            let rendered = self.select_rendered(&self.subscriptions[i].query_parts);
            out.push(rendered);
            i = i + 1;
        }
        proof {
            assert(out.deep_view() =~= notifications(self@));
        }
        out
    }

    /// Replaces what a source reports: retracts every fact that the
    /// pattern written in `fact_query_str` matches, then claims the facts
    /// written in `fact_strs`, in their order.
    pub fn replace(&mut self, fact_query_str: &str, fact_strs: &Vec<String>)
        ensures
            final(self)@.facts == unmatched(old(self)@.facts, parse_fact(fact_query_str@)) + texts(
                fact_strs@,
            ).map_values(|text: Seq<char>| parse_fact(text)),
            final(self)@.subscriptions == old(self)@.subscriptions,
    {
        self.retract(fact_query_str);
        let ghost kept = self@.facts;
        let ghost claimed = texts(fact_strs@).map_values(|text: Seq<char>| parse_fact(text));
        let mut i: usize = 0;
        while i < fact_strs.len()
            invariant
                i <= fact_strs.len(),
                claimed == texts(fact_strs@).map_values(|text: Seq<char>| parse_fact(text)),
                self@.facts == kept + claimed.take(i as int),
                self@.subscriptions == old(self)@.subscriptions,
            decreases fact_strs.len() - i,
        {
            self.claim(Fact::from_string(fact_strs[i].as_str()));
            proof {
                assert(claimed.take(i + 1) =~= claimed.take(i as int).push(claimed[i as int]));
            }
            i = i + 1;
        }
        proof {
            assert(claimed.take(i as int) =~= claimed);
        }
    }
}

} // verus!
