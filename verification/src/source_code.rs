//! Programs and the facts that come from them: which files are programs,
//! the fact that holds a program's source code, and what a program's claims
//! and a sensor's reports look like in the store.

use crate::database::Database;
use crate::fact::{parse_fact, Fact, Term, TermView};
use crate::matching::unmatched;
use crate::text::{join, lemma_join_push, texts};
use regex::Regex;
use vstd::prelude::*;
use vstd::std_specs::iter::IteratorSpec;
use vstd::string::StringExecFns;

verus! {

/// The text of capture group `group` in the last of the successive matches
/// of the regular expression `pattern` in `text`. `None` where `pattern`
/// is no regular expression, where it matches nowhere in `text`, or where
/// the group took no part in the last match.
pub uninterp spec fn last_capture(pattern: Seq<char>, text: Seq<char>, group: nat) -> Option<
    Seq<char>,
>;

/// Calls `Regex::new`, `Regex::captures_iter` and `Captures::get` of the
/// `regex` crate. Nothing is proved of the result: it is named
/// [`last_capture`], on the ground that matching depends on the pattern
/// and the text alone.
#[verifier::external_body]
fn find_last_capture(pattern: &str, text: &str, group: usize) -> (found: Option<String>)
    ensures
        found is Some == last_capture(pattern@, text@, group as nat) is Some,
        found matches Some(s) ==> Some(s@) == last_capture(pattern@, text@, group as nat),
{
    let expression = Regex::new(pattern).ok()?;
    let captures = expression.captures_iter(text).last()?;
    captures.get(group).map(|m| m.as_str().to_string())
}

/// The regular expression that a program's file name matches: the file
/// lies in the scripts folder, its name starts with the program's number,
/// which any number of parts set off by two underscores may follow, and it
/// ends in `.lua`. The number is the second group.
pub open spec fn script_pattern() -> Seq<char> {
    r"(\./scripts/(\d+)(?:__.+)*\.lua$)"@
}

/// The character that stands for the digit `d`.
pub open spec fn digit_char(d: int) -> char {
    (0x30 + d) as char
}

/// The value of the digit `c`; `None` where `c` is not one of `0` to `9`.
pub open spec fn digit_value(c: char) -> Option<int> {
    let n = c as u32;
    if 0x30 <= n <= 0x39 {
        Some(n - 0x30)
    } else {
        None
    }
}

/// The number written in `digits` in base ten; `None` where `digits` is
/// empty or holds anything but the digits `0` to `9`.
pub open spec fn decimal_value(digits: Seq<char>) -> Option<int>
    decreases digits.len(),
{
    if digits.len() == 0 {
        None
    } else if digits.len() == 1 {
        digit_value(digits[0])
    } else {
        match (decimal_value(digits.drop_last()), digit_value(digits.last())) {
            (Some(high), Some(low)) => Some(10 * high + low),
            _ => None,
        }
    }
}

/// The program number written in `digits`: their value in base ten, where
/// they have one and it is no more than the largest `i32`.
pub open spec fn program_id_of(digits: Seq<char>) -> Option<i32> {
    match decimal_value(digits) {
        Some(value) => if value <= i32::MAX {
            Some(value as i32)
        } else {
            None
        },
        None => None,
    }
}

/// The natural number `n` in base ten, without leading zeros.
pub open spec fn natural_text(n: nat) -> Seq<char>
    decreases n,
{
    if n < 10 {
        seq![digit_char(n as int)]
    } else {
        natural_text(n / 10).push(digit_char((n % 10) as int))
    }
}

/// The number `n` in base ten, with a minus sign in front where it is
/// negative.
pub open spec fn decimal_text(n: int) -> Seq<char> {
    if n < 0 {
        seq!['-'] + natural_text((-n) as nat)
    } else {
        natural_text(n as nat)
    }
}

/// The fact that holds the source code of the program `program_id`.
pub open spec fn source_code_terms(program_id: int, source_code: Seq<char>) -> Seq<TermView> {
    seq![
        TermView::Id("00"@),
        TermView::Text(decimal_text(program_id)),
        TermView::Text("source"@),
        TermView::Text("code"@),
        TermView::Text(source_code),
    ]
}

/// The fact that the program `program_id` claims with the text `text`: the
/// program's number as an identifier, then the terms written in `text`.
pub open spec fn program_claim_terms(program_id: int, text: Seq<char>) -> Seq<TermView> {
    seq![TermView::Id(decimal_text(program_id))] + parse_fact(text)
}

/// The pattern that matches every fact the sensor has reported.
pub open spec fn seen_pattern() -> Seq<char> {
    "#0cv %"@
}

/// The text of the fact that the sensor reports for the program
/// `program_id`, seen with its corners at `coordinates`.
pub open spec fn seen_program_text(program_id: int, coordinates: Seq<Seq<char>>) -> Seq<char> {
    join(seq!["#0cv"@, "program"@, decimal_text(program_id), "at"@] + coordinates)
}

/// A longer run of digits stands for no smaller number.
pub proof fn lemma_decimal_value_grows(digits: Seq<char>, n: int)
    requires
        0 < n <= digits.len(),
        decimal_value(digits) is Some,
    ensures
        decimal_value(digits.take(n)) is Some,
        0 <= decimal_value(digits.take(n))->0 <= decimal_value(digits)->0,
    decreases digits.len(),
{
    if n == digits.len() {
        assert(digits.take(n) =~= digits);
        lemma_decimal_value_bounds(digits);
    } else {
        assert(digits.drop_last().take(n) =~= digits.take(n));
        lemma_decimal_value_grows(digits.drop_last(), n);
    }
}

/// The value of a run of digits is not negative.
pub proof fn lemma_decimal_value_bounds(digits: Seq<char>)
    requires
        decimal_value(digits) is Some,
    ensures
        0 <= decimal_value(digits)->0,
        forall|k: int| 0 <= k < digits.len() ==> digit_value(#[trigger] digits[k]) is Some,
    decreases digits.len(),
{
    if digits.len() > 1 {
        lemma_decimal_value_bounds(digits.drop_last());
        assert forall|k: int| 0 <= k < digits.len() implies digit_value(
            #[trigger] digits[k],
        ) is Some by {
            if k < digits.len() - 1 {
                assert(digits[k] == digits.drop_last()[k]);
            }
        }
    }
}

/// A run that holds something other than a digit has no value.
pub proof fn lemma_decimal_value_none(digits: Seq<char>, k: int)
    requires
        0 <= k < digits.len(),
        digit_value(digits[k]) is None,
    ensures
        decimal_value(digits) is None,
{
    if decimal_value(digits) is Some {
        lemma_decimal_value_bounds(digits);
    }
}

/// Writing a natural number and reading it back gives the number.
pub proof fn lemma_natural_text_value(n: nat)
    ensures
        decimal_value(natural_text(n)) == Some(n as int),
    decreases n,
{
    if n < 10 {
    } else {
        lemma_natural_text_value(n / 10);
        let text = natural_text(n);
        assert(text.drop_last() =~= natural_text(n / 10));
        assert(natural_text(n / 10).len() >= 1) by {
            lemma_natural_text_len(n / 10);
        }
    }
}

/// A written number has at least one digit.
pub proof fn lemma_natural_text_len(n: nat)
    ensures
        natural_text(n).len() >= 1,
    decreases n,
{
    if n >= 10 {
        lemma_natural_text_len(n / 10);
    }
}

/// The number that `digits` stands for, as a program's number.
pub fn parse_program_id(digits: &str) -> (id: Option<i32>)
    ensures
        id == program_id_of(digits@),
{
    let mut it = digits.chars();
    let mut value: i32 = 0;
    let ghost mut at: int = 0;
    proof {
        assert(digits@.skip(0) =~= digits@);
    }
    loop
        invariant_except_break
            it.obeys_prophetic_iter_laws(),
            it.decrease() is Some,
            0 <= at <= digits@.len(),
            it.remaining() == digits@.skip(at),
            at > 0 ==> decimal_value(digits@.take(at)) == Some(value as int),
            at == 0 ==> value == 0,
            0 <= value,
        ensures
            at == digits@.len(),
            at > 0 ==> decimal_value(digits@.take(at)) == Some(value as int),
        decreases it.decrease()->0,
    {
        match it.next() {
            Some(c) => {
                proof {
                    assert(digits@.skip(at)[0] == digits@[at]);
                    assert(digits@.skip(at).drop_first() =~= digits@.skip(at + 1));
                    assert(digits@.take(at + 1).drop_last() =~= digits@.take(at));
                    assert(digits@.take(at + 1).last() == c);
                }
                let code: u32 = c as u32;
                if code < 48 || code > 57 {
                    proof {
                        lemma_decimal_value_none(digits@, at);
                    }
                    return None;
                }
                let low: i32 = (code - 48) as i32;
                if value > (i32::MAX - low) / 10 {
                    proof {
                        assert(digit_value(c) == Some(low as int));
                        let upto = digits@.take(at + 1);
                        if at == 0 {
                            assert(upto.len() == 1);
                            assert(upto[0] == c);
                        } else {
                            assert(upto.len() > 1);
                            assert(decimal_value(upto.drop_last()) == Some(value as int));
                        }
                        assert(decimal_value(upto) == Some(10 * value + low));
                        if decimal_value(digits@) is Some {
                            lemma_decimal_value_grows(digits@, at + 1);
                        }
                    }
                    return None;
                }
                proof {
                    assert(digit_value(c) == Some(low as int));
                    let upto = digits@.take(at + 1);
                    if at == 0 {
                        assert(upto.len() == 1);
                        assert(upto[0] == c);
                    } else {
                        assert(upto.len() > 1);
                        assert(decimal_value(upto.drop_last()) == Some(value as int));
                    }
                    assert(decimal_value(upto) == Some(10 * value + low));
                }
                value = value * 10 + low;
                proof {
                    at = at + 1;
                }
            },
            None => {
                break ;
            },
        }
    }
    proof {
        assert(digits@.take(at) =~= digits@);
    }
    if digits.is_empty() {
        None
    } else {
        Some(value)
    }
}

/// The number of the program that the file `filename` holds; `None` where
/// the name is not that of a program, or its number is too large.
pub fn get_program_id_from_filename(filename: &String) -> (id: Option<i32>)
    ensures
        id == match last_capture(script_pattern(), filename@, 2) {
            Some(digits) => program_id_of(digits),
            None => None,
        },
{
    match find_last_capture(r"(\./scripts/(\d+)(?:__.+)*\.lua$)", filename.as_str(), 2) {
        Some(digits) => parse_program_id(digits.as_str()),
        None => None,
    }
}

/// Appends the natural number `n` in base ten to `out`.
fn push_natural(out: &mut String, n: u32)
    ensures
        final(out)@ == old(out)@ + natural_text(n as nat),
    decreases n,
{
    if n >= 10 {
        push_natural(out, n / 10);
    }
    let digit: u8 = (48 + n % 10) as u8;
    out.push(digit as char);
    proof {
        assert(digit as char == digit_char((n % 10) as int));
        assert(out@ =~= old(out)@ + natural_text(n as nat));
    }
}

/// The number `n` in base ten.
pub fn decimal(n: i32) -> (out: String)
    ensures
        out@ == decimal_text(n as int),
{
    let mut out = String::new();
    if n < 0 {
        out.push('-');
        let size: u32 = (-(n as i64)) as u32;
        push_natural(&mut out, size);
    } else {
        push_natural(&mut out, n as u32);
    }
    proof {
        assert(out@ =~= decimal_text(n as int));
    }
    out
}

/// The fact that holds the source code of the program `program_id`.
pub fn source_code_fact(program_id: i32, source_code: &str) -> (fact: Fact)
    ensures
        fact@ == source_code_terms(program_id as int, source_code@),
{
    let mut terms: Vec<Term> = Vec::new();
    terms.push(Term::Id(String::from_str("00")));
    terms.push(Term::Text(decimal(program_id)));
    terms.push(Term::Text(String::from_str("source")));
    terms.push(Term::Text(String::from_str("code")));
    terms.push(Term::Text(String::from_str(source_code)));
    let fact = Fact { terms };
    proof {
        assert(fact@ =~= source_code_terms(program_id as int, source_code@));
    }
    fact
}

/// The fact that the program `program_id` claims with the text
/// `fact_text`.
pub fn program_claim(program_id: i32, fact_text: &str) -> (fact: Fact)
    ensures
        fact@ == program_claim_terms(program_id as int, fact_text@),
{
    let mut fact = Fact::from_string(fact_text);
    fact.terms.insert(0, Term::Id(decimal(program_id)));
    proof {
        assert(fact@ =~= program_claim_terms(program_id as int, fact_text@));
    }
    fact
}

/// The text of the fact that the sensor reports for the program
/// `program_id`, seen with its corners at `coordinates`.
pub fn seen_program(program_id: i32, coordinates: &Vec<String>) -> (out: String)
    ensures
        out@ == seen_program_text(program_id as int, texts(coordinates@)),
{
    let mut out = String::from_str("#0cv program ");
    let number = decimal(program_id);
    out.append(number.as_str());
    out.append(" at");
    let ghost head = seq!["#0cv"@, "program"@, decimal_text(program_id as int), "at"@];
    let ghost tail = texts(coordinates@);
    proof {
        reveal_strlit("#0cv program ");
        reveal_strlit("#0cv");
        reveal_strlit("program");
        reveal_strlit(" at");
        reveal_strlit("at");
        reveal_with_fuel(join, 5);
        assert(head.drop_first() =~= seq!["program"@, decimal_text(program_id as int), "at"@]);
        assert(head.drop_first().drop_first() =~= seq![decimal_text(program_id as int), "at"@]);
        assert(head.drop_first().drop_first().drop_first() =~= seq!["at"@]);
        assert(out@ =~= join(head));
        assert(head + tail.take(0) =~= head);
    }
    let mut i: usize = 0;
    while i < coordinates.len()
        invariant
            i <= coordinates.len(),
            head.len() == 4,
            tail == texts(coordinates@),
            out@ == join(head + tail.take(i as int)),
        decreases coordinates.len() - i,
    {
        proof {
            lemma_join_push(head + tail.take(i as int), tail[i as int]);
            assert((head + tail.take(i as int)).push(tail[i as int]) =~= head + tail.take(i + 1));
        }
        out.push(' ');
        out.append(coordinates[i].as_str());
        i = i + 1;
    }
    proof {
        assert(tail.take(i as int) =~= tail);
    }
    out
}

/// Replaces what the sensor has reported by `reports`: every fact under
/// the sensor's name leaves the store, then the facts written in `reports`
/// are claimed, in their order.
pub fn report_seen(db: &mut Database, reports: &Vec<String>)
    ensures
        final(db)@.facts == unmatched(old(db)@.facts, parse_fact(seen_pattern())) + texts(
            reports@,
        ).map_values(|text: Seq<char>| parse_fact(text)),
        final(db)@.subscriptions == old(db)@.subscriptions,
{
    db.replace("#0cv %", reports);
}

} // verus!
