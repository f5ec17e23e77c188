use fact_store::database::{Database, QueryResult, QueryResultVariable, Subscription};
use fact_store::fact::{Fact, Term};

fn binding(name: &str, term: Term) -> QueryResultVariable {
    QueryResultVariable { variable_name: name.to_string(), term }
}

fn text(s: &str) -> Term {
    Term::Text(s.to_string())
}

fn query(parts: &[&str]) -> Vec<String> {
    parts.iter().map(|p| p.to_string()).collect()
}

fn store(facts: &[&str]) -> Database {
    let mut db = Database::new();
    for f in facts {
        db.claim(Fact::from_string(f));
    }
    db
}

fn stored(db: &Database) -> Vec<String> {
    db.facts().iter().map(|f| f.to_string()).collect()
}

fn key(lua: &mlua::Lua, n: i64) -> mlua::RegistryKey {
    lua.create_registry_value(n).unwrap()
}

#[test]
fn claim_tests() {
    let mut db = Database::new();
    db.claim(Fact::from_string("fox is red"));
    db.claim(Fact::from_string("rock is red"));
    db.print();
    let q1 = db.select(&vec!["$x is red".to_string()]);
    let mut q1 = q1.iter();
    assert_eq!(
        q1.next().unwrap(),
        &QueryResult {
            result: vec![QueryResultVariable {
                variable_name: "x".to_string(),
                term: Term::Text("fox".to_string())
            }]
        }
    );
    assert_eq!(
        q1.next().unwrap(),
        &QueryResult {
            result: vec![QueryResultVariable {
                variable_name: "x".to_string(),
                term: Term::Text("rock".to_string())
            }]
        }
    );

    let q2 = db.select(&vec!["fox is $".to_string()]);
    let mut q2 = q2.iter();
    assert_eq!(q2.next().unwrap(), &QueryResult { result: vec![] });

    let q3 = db.select(&vec!["%fact".to_string()]);
    let mut q3 = q3.iter();
    assert_eq!(
        q3.next().unwrap(),
        &QueryResult {
            result: vec![QueryResultVariable {
                variable_name: "fact".to_string(),
                term: Term::Text("fox is red".to_string())
            }]
        }
    );
    assert_eq!(
        q3.next().unwrap(),
        &QueryResult {
            result: vec![QueryResultVariable {
                variable_name: "fact".to_string(),
                term: Term::Text("rock is red".to_string())
            }]
        }
    );

    db.retract("fox is $");

    let q4 = db.select(&vec!["$x is red".to_string()]);
    let mut q4 = q4.iter();
    assert_eq!(
        q4.next().unwrap(),
        &QueryResult {
            result: vec![QueryResultVariable {
                variable_name: "x".to_string(),
                term: Term::Text("rock".to_string())
            }]
        }
    );
}

#[test]
fn named_variable_gives_one_solution_per_fact_in_store_order() {
    let db = store(&["fox is red", "rock is red"]);
    let found = db.select(&query(&["$x is red"]));
    assert_eq!(
        found,
        vec![
            QueryResult { result: vec![binding("x", text("fox"))] },
            QueryResult { result: vec![binding("x", text("rock"))] },
        ]
    );
}

#[test]
fn unnamed_variable_matches_and_binds_nothing() {
    let db = store(&["fox is red", "rock is red"]);
    let found = db.select(&query(&["$ is red"]));
    assert_eq!(found, vec![QueryResult { result: vec![] }, QueryResult { result: vec![] }]);
    let found = db.select(&query(&["fox is $"]));
    assert_eq!(found, vec![QueryResult { result: vec![] }]);
}

#[test]
fn postfix_captures_the_rest_as_one_text() {
    let db = store(&["fox is red", "rock is red"]);
    let found = db.select(&query(&["%fact"]));
    assert_eq!(
        found,
        vec![
            QueryResult { result: vec![binding("fact", text("fox is red"))] },
            QueryResult { result: vec![binding("fact", text("rock is red"))] },
        ]
    );
    let found = db.select(&query(&["fox %rest"]));
    assert_eq!(found, vec![QueryResult { result: vec![binding("rest", text("is red"))] }]);
    let found = db.select(&query(&["fox is %"]));
    assert_eq!(found, vec![QueryResult { result: vec![] }]);
}

#[test]
fn postfix_renders_identifiers_with_their_mark() {
    let db = store(&["#0cv program 7 at 1 2"]);
    let found = db.select(&query(&["%all"]));
    assert_eq!(
        found,
        vec![QueryResult { result: vec![binding("all", text("#0cv program 7 at 1 2"))] }]
    );
    let found = db.select(&query(&["#0cv program $id %where"]));
    assert_eq!(
        found,
        vec![QueryResult {
            result: vec![binding("id", text("7")), binding("where", text("at 1 2"))]
        }]
    );
}

#[test]
fn postfix_needs_at_least_one_term() {
    let db = store(&["fox"]);
    assert_eq!(db.select(&query(&["fox %rest"])), vec![]);
    assert_eq!(
        db.select(&query(&["%rest"])),
        vec![QueryResult { result: vec![binding("rest", text("fox"))] }]
    );
}

#[test]
fn terms_behind_a_postfix_are_not_looked_at() {
    let pattern = Fact::from_string("fox %rest never");
    let fact = Fact::from_string("fox is red");
    let mut env = QueryResult::new();
    assert!(Database::fact_match(&pattern, &fact, &mut env));
    assert_eq!(env, QueryResult { result: vec![binding("rest", text("is red"))] });
    let shorter = Fact::from_string("fox is");
    let mut env = QueryResult::new();
    assert!(!Database::fact_match(&pattern, &shorter, &mut env));
}

#[test]
fn bound_postfix_is_checked_against_the_rest() {
    let db = store(&["ann says good day", "bob says hello", "good day"]);
    let found = db.select(&query(&["$who says %words", "%words"]));
    assert_eq!(
        found,
        vec![QueryResult {
            result: vec![binding("who", text("ann")), binding("words", text("good day"))]
        }]
    );
}

#[test]
fn retract_removes_every_match_and_keeps_order() {
    let mut db = store(&["fox is red", "rock is red", "fox is quick", "sky is blue"]);
    db.retract("fox is $");
    assert_eq!(stored(&db), vec!["rock is red", "sky is blue"]);
    let found = db.select(&query(&["$x is red"]));
    assert_eq!(found, vec![QueryResult { result: vec![binding("x", text("rock"))] }]);
}

#[test]
fn retract_leaves_exactly_the_other_fact() {
    let mut db = store(&["fox is red", "rock is red"]);
    db.retract("fox is $");
    assert_eq!(stored(&db), vec!["rock is red"]);
}

#[test]
fn retract_matches_each_fact_on_its_own() {
    let mut db = store(&["a b", "c c", "d d", "e f"]);
    db.retract("$x $x");
    assert_eq!(stored(&db), vec!["a b", "e f"]);
    let mut db = store(&["a 1", "b 2", "c 3"]);
    db.retract("$x $y");
    assert_eq!(stored(&db), Vec::<String>::new());
}

#[test]
fn retract_by_namespace() {
    let mut db = store(&["#0cv program 1 at 0 0", "#12 wish I had graphics", "#0cv program 2 at 5 5"]);
    db.retract("#0cv %");
    assert_eq!(stored(&db), vec!["#12 wish I had graphics"]);
}

#[test]
fn repeated_variable_needs_equal_terms() {
    let pattern = Fact::from_string("$x loves $x");
    let mut env = QueryResult::new();
    assert!(Database::fact_match(&pattern, &Fact::from_string("ann loves ann"), &mut env));
    assert_eq!(env, QueryResult { result: vec![binding("x", text("ann"))] });
    let mut env = QueryResult::new();
    assert!(!Database::fact_match(&pattern, &Fact::from_string("ann loves bob"), &mut env));
    assert_eq!(env, QueryResult { result: vec![binding("x", text("ann"))] });
}

#[test]
fn text_and_identifier_differ() {
    let pattern = Fact::from_string("$x is $x");
    let mut env = QueryResult::new();
    assert!(!Database::fact_match(&pattern, &Fact::from_string("#7 is 7"), &mut env));
    let mut env = QueryResult::new();
    assert!(Database::term_match(&Term::Id("7".to_string()), &Term::Id("7".to_string()), &mut env));
    assert!(!Database::term_match(&Term::Id("7".to_string()), &text("7"), &mut env));
    assert!(!Database::term_match(&text("$x"), &Term::Variable("x".to_string()), &mut env));
    assert_eq!(env, QueryResult { result: vec![] });
}

#[test]
fn two_clauses_join_on_a_shared_variable() {
    let db = store(&[
        "ann likes tea",
        "bob likes milk",
        "tea is hot",
        "milk is cold",
        "juice is cold",
    ]);
    let found = db.select(&query(&["$who likes $what", "$what is $how"]));
    assert_eq!(
        found,
        vec![
            QueryResult {
                result: vec![
                    binding("who", text("ann")),
                    binding("what", text("tea")),
                    binding("how", text("hot")),
                ]
            },
            QueryResult {
                result: vec![
                    binding("who", text("bob")),
                    binding("what", text("milk")),
                    binding("how", text("cold")),
                ]
            },
        ]
    );
}

#[test]
fn solutions_come_clause_first_then_store_order() {
    let db = store(&["a 1", "a 2", "b 3"]);
    let found = db.select(&query(&["a $x", "$k $y"]));
    let seen: Vec<(String, String)> = found
        .iter()
        .map(|r| (r.result[0].term.to_string(), r.result[2].term.to_string()))
        .collect();
    let expected: Vec<(String, String)> = vec![("1", "1"), ("1", "2"), ("1", "3"), ("2", "1"), ("2", "2"), ("2", "3")]
        .into_iter()
        .map(|(a, b)| (a.to_string(), b.to_string()))
        .collect();
    assert_eq!(seen, expected);
}

#[test]
fn claim_then_select_exact() {
    let mut db = store(&["rock is red"]);
    assert_eq!(db.select(&query(&["fox is red"])), vec![]);
    db.claim(Fact::from_string("fox is red"));
    assert_eq!(db.select(&query(&["fox is red"])), vec![QueryResult { result: vec![] }]);
    db.claim(Fact::from_string("fox is red"));
    assert_eq!(
        db.select(&query(&["fox is red"])),
        vec![QueryResult { result: vec![] }, QueryResult { result: vec![] }]
    );
    assert_eq!(stored(&db), vec!["rock is red", "fox is red", "fox is red"]);
}

#[test]
fn equal_solutions_are_not_merged() {
    let db = store(&["fox is red", "fox is red"]);
    let found = db.select(&query(&["$x is red"]));
    assert_eq!(
        found,
        vec![
            QueryResult { result: vec![binding("x", text("fox"))] },
            QueryResult { result: vec![binding("x", text("fox"))] },
        ]
    );
}

#[test]
fn pattern_of_three_matches_neither_two_nor_four() {
    let pattern = Fact::from_string("$a $b $c");
    let mut env = QueryResult::new();
    assert!(!Database::fact_match(&pattern, &Fact::from_string("one two"), &mut env));
    assert!(!Database::fact_match(&pattern, &Fact::from_string("one two three four"), &mut env));
    assert_eq!(env, QueryResult { result: vec![] });
    assert!(Database::fact_match(&pattern, &Fact::from_string("one two three"), &mut env));
    assert_eq!(env.result.len(), 3);
}

#[test]
fn empty_pattern_matches_nothing() {
    let pattern = Fact::from_string("   ");
    let mut env = QueryResult::new();
    assert!(!Database::fact_match(&pattern, &Fact::from_string(""), &mut env));
    assert!(!Database::fact_match(&pattern, &Fact::from_string("fox"), &mut env));
    let db = store(&["fox is red"]);
    assert_eq!(db.select(&query(&[""])), vec![]);
}

#[test]
fn query_without_clauses_has_one_empty_solution() {
    let db = store(&["fox is red"]);
    assert_eq!(db.select(&query(&[])), vec![QueryResult { result: vec![] }]);
    assert_eq!(Database::new().select(&query(&[])), vec![QueryResult { result: vec![] }]);
    assert_eq!(Database::new().select(&query(&["$x"])), vec![]);
}

#[test]
fn collect_solutions_starts_from_given_bindings() {
    let db = store(&["fox is red", "rock is red"]);
    let start = QueryResult { result: vec![binding("x", text("rock"))] };
    let clauses = vec![Fact::from_string("$x is $c")];
    let found = db.collect_solutions(&clauses, &start);
    assert_eq!(
        found,
        vec![QueryResult { result: vec![binding("x", text("rock")), binding("c", text("red"))] }]
    );
}

#[test]
fn failed_match_keeps_earlier_bindings() {
    let pattern = Fact::from_string("$a $b end");
    let mut env = QueryResult::new();
    assert!(!Database::fact_match(&pattern, &Fact::from_string("1 2 3"), &mut env));
    assert_eq!(env, QueryResult { result: vec![binding("a", text("1")), binding("b", text("2"))] });
}

#[test]
fn stored_variable_can_be_followed() {
    let mut env = QueryResult { result: vec![binding("x", Term::Variable("y".to_string()))] };
    assert!(Database::term_match(&Term::Variable("x".to_string()), &text("fox"), &mut env));
    assert_eq!(
        env,
        QueryResult {
            result: vec![binding("x", Term::Variable("y".to_string())), binding("y", text("fox"))]
        }
    );
    assert!(!Database::term_match(&Term::Variable("x".to_string()), &text("rock"), &mut env));
    assert!(Database::term_match(&Term::Variable("x".to_string()), &text("fox"), &mut env));
}

#[test]
fn binding_chain_that_never_ends_is_no_match() {
    let mut env = QueryResult { result: vec![binding("x", Term::Variable("x".to_string()))] };
    assert!(!Database::term_match(&Term::Variable("x".to_string()), &text("fox"), &mut env));
    assert_eq!(env.result.len(), 1);
    let mut env = QueryResult {
        result: vec![
            binding("x", Term::Variable("y".to_string())),
            binding("y", Term::Postfix("x".to_string())),
        ],
    };
    assert!(!Database::term_match(&Term::Variable("y".to_string()), &text("fox"), &mut env));
    assert_eq!(env.result.len(), 2);
    let db = store(&["$x foo"]);
    assert_eq!(db.select(&query(&["$x $x"])), vec![]);
}

#[test]
fn select_leaves_the_store_alone() {
    let db = store(&["fox is red", "rock is red"]);
    let _ = db.select(&query(&["$x is $y", "%all"]));
    assert_eq!(stored(&db), vec!["fox is red", "rock is red"]);
}

#[test]
fn print_lists_every_fact() {
    let db = store(&["fox  is red", "#7 $x %y"]);
    assert_eq!(db.print(), "DATABASE:\nfox is red\n#7 $x %y\n");
    assert_eq!(Database::new().print(), "DATABASE:\n");
}

#[test]
fn query_results_compare_by_content() {
    let a = QueryResult { result: vec![binding("x", text("fox"))] };
    assert!(a == a.clone());
    assert!(a != QueryResult { result: vec![binding("x", text("rock"))] });
    assert!(a != QueryResult { result: vec![binding("y", text("fox"))] });
    assert!(a != QueryResult { result: vec![binding("x", Term::Id("fox".to_string()))] });
    assert!(a != QueryResult { result: vec![] });
    assert!(binding("x", text("fox")) == binding("x", text("fox")).clone());
}

#[test]
fn subscription_starts_without_results() {
    let lua = mlua::Lua::new();
    let k = key(&lua, 5);
    let sub = Subscription::new(&"12".to_string(), &query(&["$x is red", "%rest"]), k);
    assert_eq!(sub.program_source_id, "12");
    assert_eq!(sub.query_parts, query(&["$x is red", "%rest"]));
    assert_eq!(sub.last_results, vec![]);
    let n: i64 = lua.registry_value(&sub.callback_func).unwrap();
    assert_eq!(n, 5);
}

#[test]
fn subscriptions_are_removed_by_program() {
    let lua = mlua::Lua::new();
    let mut db = store(&["fox is red"]);
    db.register(&"1".to_string(), &query(&["$x is red"]), key(&lua, 10));
    db.register(&"2".to_string(), &query(&["%all"]), key(&lua, 20));
    db.register(&"1".to_string(), &query(&["fox $y $z"]), key(&lua, 30));
    db.register(&"3".to_string(), &query(&[]), key(&lua, 40));
    assert_eq!(db.subscriptions().len(), 4);
    db.remove_subscriptions_by_program(&"1".to_string());
    let left: Vec<(String, i64)> = db
        .subscriptions
        .iter()
        .map(|s| (s.program_source_id.clone(), lua.registry_value::<i64>(&s.callback_func).unwrap()))
        .collect();
    assert_eq!(left, vec![("2".to_string(), 20), ("3".to_string(), 40)]);
    assert_eq!(stored(&db), vec!["fox is red"]);
    db.remove_subscriptions_by_program(&"9".to_string());
    assert_eq!(db.subscriptions.len(), 2);
}

#[test]
fn subscriptions_are_evaluated_in_registration_order() {
    let lua = mlua::Lua::new();
    let mut db = store(&["fox is red", "#5 rock is red"]);
    db.register(&"1".to_string(), &query(&["$x is $c"]), key(&lua, 1));
    db.register(&"2".to_string(), &query(&["nothing here"]), key(&lua, 2));
    db.register(&"3".to_string(), &query(&["$id $x is red", "%all"]), key(&lua, 3));
    let pair = |a: &str, b: &str| (a.to_string(), b.to_string());
    assert_eq!(
        db.evaluate_subscriptions(),
        vec![
            vec![vec![pair("x", "fox"), pair("c", "red")]],
            vec![],
            vec![
                vec![pair("id", "#5"), pair("x", "rock"), pair("all", "fox is red")],
                vec![pair("id", "#5"), pair("x", "rock"), pair("all", "#5 rock is red")],
            ],
        ]
    );
    assert_eq!(Database::new().evaluate_subscriptions(), Vec::<Vec<Vec<(String, String)>>>::new());
}

#[test]
fn every_solution_reaches_the_callback() {
    let db = store(&["fox is red", "rock is red"]);
    let pair = |a: &str, b: &str| (a.to_string(), b.to_string());
    assert_eq!(
        db.select_rendered(&query(&["$x is red"])),
        vec![vec![pair("x", "fox")], vec![pair("x", "rock")]]
    );
}

#[test]
fn replace_retracts_then_claims() {
    let mut db = store(&["#0cv program 1 at 0 0", "fox is red", "#0cv program 2 at 1 1"]);
    db.replace("#0cv %", &query(&["#0cv program 9 at 4 4", "#0cv program 1 at 2 2"]));
    assert_eq!(
        stored(&db),
        vec!["fox is red", "#0cv program 9 at 4 4", "#0cv program 1 at 2 2"]
    );
    db.replace("#0cv %", &query(&[]));
    assert_eq!(stored(&db), vec!["fox is red"]);
}
