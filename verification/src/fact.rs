//! Terms and facts, and their text form.
//!
//! A fact is written as tokens separated by whitespace. The first character
//! of a token says what kind of term it is: `$` a variable, `%` a postfix,
//! `#` an identifier, anything else plain text.

use crate::text::{join, lemma_join_push, split_tokens, tokens};
use vstd::prelude::*;
use vstd::std_specs::cmp::PartialEqSpecImpl;
use vstd::std_specs::iter::IteratorSpec;
use vstd::string::StringExecFns;

verus! {

/// What a [`Term`] is, with its text as a sequence of characters.
pub enum TermView {
    Text(Seq<char>),
    Id(Seq<char>),
    Variable(Seq<char>),
    Postfix(Seq<char>),
}

impl TermView {
    /// The name of a variable or postfix.
    pub open spec fn name(self) -> Seq<char> {
        match self {
            TermView::Text(t) => t,
            TermView::Id(t) => t,
            TermView::Variable(t) => t,
            TermView::Postfix(t) => t,
        }
    }

    /// Whether the term stands for something to be found: a variable or a
    /// postfix. Such terms belong in patterns only.
    pub open spec fn is_placeholder(self) -> bool {
        self is Variable || self is Postfix
    }

    /// Whether the term is a literal: plain text or an identifier.
    pub open spec fn is_literal(self) -> bool {
        self is Text || self is Id
    }
}

/// The term that the token `token` stands for.
pub open spec fn parse_term(token: Seq<char>) -> TermView {
    if token.len() == 0 {
        TermView::Text(token)
    } else if token[0] == '$' {
        TermView::Variable(token.skip(1))
    } else if token[0] == '%' {
        TermView::Postfix(token.skip(1))
    } else if token[0] == '#' {
        TermView::Id(token.skip(1))
    } else {
        TermView::Text(token)
    }
}

/// The token that stands for `term`.
pub open spec fn render_term(term: TermView) -> Seq<char> {
    match term {
        TermView::Text(t) => t,
        TermView::Id(t) => seq!['#'] + t,
        TermView::Variable(t) => seq!['$'] + t,
        TermView::Postfix(t) => seq!['%'] + t,
    }
}

/// The fact that the text `text` stands for.
pub open spec fn parse_fact(text: Seq<char>) -> Seq<TermView> {
    tokens(text).map_values(|token: Seq<char>| parse_term(token))
}

/// The text that stands for the fact `terms`.
pub open spec fn render_fact(terms: Seq<TermView>) -> Seq<char> {
    join(terms.map_values(|term: TermView| render_term(term)))
}

/// The views of the terms in `terms`.
pub open spec fn term_views(terms: Seq<Term>) -> Seq<TermView> {
    terms.map_values(|term: Term| term@)
}

/// One value of a fact.
#[derive(Debug)]
pub enum Term {
    /// A literal.
    Text(String),
    /// A literal marked as an identifier.
    Id(String),
    /// Stands in a pattern for any one term. Without a name it binds nothing.
    Variable(String),
    /// Stands in a pattern for all terms from its place to the end. Without
    /// a name it binds nothing.
    Postfix(String),
}

impl View for Term {
    type V = TermView;

    open spec fn view(&self) -> TermView {
        match self {
            Term::Text(t) => TermView::Text(t@),
            Term::Id(t) => TermView::Id(t@),
            Term::Variable(t) => TermView::Variable(t@),
            Term::Postfix(t) => TermView::Postfix(t@),
        }
    }
}

impl Clone for Term {
    fn clone(&self) -> (out: Self)
        ensures
            out == *self,
    {
        match self {
            Term::Text(t) => Term::Text(t.clone()),
            Term::Id(t) => Term::Id(t.clone()),
            Term::Variable(t) => Term::Variable(t.clone()),
            Term::Postfix(t) => Term::Postfix(t.clone()),
        }
    }
}

impl PartialEq for Term {
    fn eq(&self, other: &Self) -> (equal: bool) {
        match self {
            Term::Text(a) => match other {
                Term::Text(b) => *a == *b,
                _ => false,
            },
            Term::Id(a) => match other {
                Term::Id(b) => *a == *b,
                _ => false,
            },
            Term::Variable(a) => match other {
                Term::Variable(b) => *a == *b,
                _ => false,
            },
            Term::Postfix(a) => match other {
                Term::Postfix(b) => *a == *b,
                _ => false,
            },
        }
    }
}

impl Eq for Term {

}

impl PartialEqSpecImpl for Term {
    open spec fn obeys_eq_spec() -> bool {
        true
    }

    /// Two terms are equal when they are of the same kind and hold the same
    /// text.
    open spec fn eq_spec(&self, other: &Self) -> bool {
        self@ == other@
    }
}

impl Term {
    /// The term that the token `input` stands for.
    pub fn new(input: &str) -> (term: Term)
        ensures
            term@ == parse_term(input@),
    {
        let mut it = input.chars();
        match it.next() {
            None => {
                proof {
                    assert(input@ =~= Seq::<char>::empty());
                }
                Term::Text(String::new())
            },
            Some(first) => {
                assert(first == input@[0]);
                let mut rest = String::new();
                let ghost mut at: int = 1;
                proof {
                    assert(input@.skip(0) =~= input@);
                    assert(input@.skip(0).drop_first() =~= input@.skip(1));
                    assert(input@.subrange(1, 1) =~= Seq::<char>::empty());
                }
                loop
                    invariant_except_break
                        it.obeys_prophetic_iter_laws(),
                        it.decrease() is Some,
                        1 <= at <= input@.len(),
                        it.remaining() == input@.skip(at),
                        rest@ == input@.subrange(1, at),
                    ensures
                        rest@ == input@.skip(1),
                    decreases it.decrease()->0,
                {
                    match it.next() {
                        Some(c) => {
                            rest.push(c);
                            proof {
                                assert(input@.skip(at)[0] == input@[at]);
                                assert(input@.skip(at).drop_first() =~= input@.skip(at + 1));
                                assert(input@.subrange(1, at + 1) =~= input@.subrange(1, at).push(
                                    c,
                                ));
                                at = at + 1;
                            }
                        },
                        None => {
                            proof {
                                assert(input@.subrange(1, at) =~= input@.skip(1));
                            }
                            break ;
                        },
                    }
                }
                if first == '$' {
                    Term::Variable(rest)
                } else if first == '%' {
                    Term::Postfix(rest)
                } else if first == '#' {
                    Term::Id(rest)
                } else {
                    let mut whole = String::new();
                    whole.push(first);
                    whole.append(rest.as_str());
                    proof {
                        assert(whole@ =~= input@);
                    }
                    Term::Text(whole)
                }
            },
        }
    }

    /// The token that stands for the term.
    pub fn to_string(&self) -> (out: String)
        ensures
            out@ == render_term(self@),
    {
        match self {
            Term::Text(text) => text.clone(),
            Term::Id(text) => Self::with_sigil('#', text),
            Term::Variable(text) => Self::with_sigil('$', text),
            Term::Postfix(text) => Self::with_sigil('%', text),
        }
    }

    /// The name of a variable or postfix; `None` for a literal.
    pub(crate) fn placeholder_name(&self) -> (name: Option<&String>)
        ensures
            name is Some == self@.is_placeholder(),
            name matches Some(n) ==> n@ == self@.name(),
    {
        match self {
            Term::Variable(name) => Some(name),
            Term::Postfix(name) => Some(name),
            _ => None,
        }
    }

    fn with_sigil(sigil: char, text: &String) -> (out: String)
        ensures
            out@ == seq![sigil] + text@,
    {
        let mut out = String::new();
        out.push(sigil);
        out.append(text.as_str());
        proof {
            assert(out@ =~= seq![sigil] + text@);
        }
        out
    }
}

/// An ordered tuple of terms.
#[derive(Debug)]
pub struct Fact {
    pub terms: Vec<Term>,
}

impl View for Fact {
    type V = Seq<TermView>;

    open spec fn view(&self) -> Seq<TermView> {
        term_views(self.terms@)
    }
}

impl Clone for Fact {
    fn clone(&self) -> (out: Self)
        ensures
            out@ == self@,
    {
        Fact::from_terms(self.terms.as_slice())
    }
}

impl Fact {
    /// The fact that `input` stands for: one term for each token.
    pub fn from_string(input: &str) -> (fact: Fact)
        ensures
            fact@ == parse_fact(input@),
    {
        let parts = split_tokens(input);
        let mut terms: Vec<Term> = Vec::new();
        let mut i: usize = 0;
        while i < parts.len()
            invariant
                i <= parts.len(),
                terms.len() == i,
                forall|k: int| 0 <= k < i ==> (#[trigger] terms[k])@ == parse_term(parts[k]@),
            decreases parts.len() - i,
        {
            terms.push(Term::new(parts[i].as_str()));
            i = i + 1;
        }
        proof {
            assert(term_views(terms@) =~= parse_fact(input@));
        }
        Fact { terms }
    }

    /// A fact of copies of `input_terms`, in their order.
    pub fn from_terms(input_terms: &[Term]) -> (fact: Fact)
        ensures
            fact@ == term_views(input_terms@),
            fact.terms@ == input_terms@,
    {
        let mut terms: Vec<Term> = Vec::new();
        let mut i: usize = 0;
        while i < input_terms.len()
            invariant
                i <= input_terms.len(),
                terms@ == input_terms@.take(i as int),
            decreases input_terms.len() - i,
        {
            terms.push(input_terms[i].clone());
            proof {
                assert(input_terms@.take(i + 1) =~= input_terms@.take(i as int).push(
                    input_terms[i as int],
                ));
            }
            i = i + 1;
        }
        proof {
            assert(input_terms@.take(i as int) =~= input_terms@);
        }
        Fact { terms }
    }

    /// The text that stands for the fact: the tokens of its terms, with one
    /// space between neighbours.
    pub fn to_string(&self) -> (out: String)
        ensures
            out@ == render_fact(self@),
    {
        proof {
            assert(self@.skip(0) =~= self@);
        }
        self.to_string_from(0)
    }

    /// The text that stands for the terms from position `start` on.
    pub(crate) fn to_string_from(&self, start: usize) -> (out: String)
        requires
            start <= self.terms.len(),
        ensures
            out@ == render_fact(self@.skip(start as int)),
    {
        let mut out = String::new();
        let mut i: usize = start;
        let ghost rendered = self@.skip(start as int).map_values(|term: TermView| render_term(term));
        proof {
            assert(rendered.take(0) =~= Seq::<Seq<char>>::empty());
        }
        while i < self.terms.len()
            invariant
                start <= i <= self.terms.len(),
                rendered == self@.skip(start as int).map_values(|term: TermView| render_term(term)),
                rendered.len() == self.terms.len() - start,
                out@ == join(rendered.take(i - start)),
            decreases self.terms.len() - i,
        {
            let token = self.terms[i].to_string();
            proof {
                lemma_join_push(rendered.take(i - start), rendered[i - start]);
                assert(rendered.take(i - start + 1) =~= rendered.take(i - start).push(
                    rendered[i - start],
                ));
                assert(token@ == rendered[i - start]);
            }
            if i > start {
                out.push(' ');
            }
            out.append(token.as_str());
            i = i + 1;
        }
        proof {
            assert(rendered.take(i - start) =~= rendered);
        }
        out
    }

    /// Whether the term at position `i` is a postfix.
    pub(crate) fn is_postfix_at(&self, i: usize) -> (postfix: bool)
        requires
            i < self.terms.len(),
        ensures
            postfix == (self@[i as int] is Postfix),
    {
        match &self.terms[i] {
            Term::Postfix(_) => true,
            _ => false,
        }
    }
}

} // verus!
