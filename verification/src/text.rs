//! Text of facts: the whitespace that separates tokens, splitting a text into
//! its tokens and joining tokens back into a text.

use vstd::prelude::*;
use vstd::std_specs::iter::IteratorSpec;

verus! {

/// `String::push` appends one character to the end of the string.
pub assume_specification[ String::push ](s: &mut String, c: char)
    ensures
        final(s)@ == old(s)@.push(c),
;

/// The separator written between two tokens of a rendered fact.
pub open spec fn separator() -> char {
    ' '
}

/// Whether `c` is whitespace: a code point with the Unicode property
/// `White_Space`.
pub open spec fn is_whitespace(c: char) -> bool {
    let n = c as u32;
    ||| 0x09 <= n <= 0x0D
    ||| n == 0x20
    ||| n == 0x85
    ||| n == 0xA0
    ||| n == 0x1680
    ||| 0x2000 <= n <= 0x200A
    ||| n == 0x2028
    ||| n == 0x2029
    ||| n == 0x202F
    ||| n == 0x205F
    ||| n == 0x3000
}

/// Whether no character of `s` is whitespace.
pub open spec fn whitespace_free(s: Seq<char>) -> bool {
    forall|i: int| 0 <= i < s.len() ==> !is_whitespace(#[trigger] s[i])
}

/// Length of the longest prefix of `s` that holds no whitespace.
pub open spec fn token_len(s: Seq<char>) -> nat
    decreases s.len(),
{
    if s.len() == 0 || is_whitespace(s[0]) {
        0
    } else {
        1 + token_len(s.drop_first())
    }
}

/// The tokens of `s`: its maximal runs of characters that are not whitespace,
/// from left to right. No token is empty.
pub open spec fn tokens(s: Seq<char>) -> Seq<Seq<char>>
    decreases s.len(),
{
    if s.len() == 0 {
        Seq::empty()
    } else if is_whitespace(s[0]) {
        tokens(s.drop_first())
    } else {
        let n = token_len(s);
        if 0 < n <= s.len() {
            seq![s.take(n as int)] + tokens(s.skip(n as int))
        } else {
            Seq::empty()
        }
    }
}

/// The texts in `parts`, in order, with one separator between neighbours.
pub open spec fn join(parts: Seq<Seq<char>>) -> Seq<char>
    decreases parts.len(),
{
    if parts.len() == 0 {
        Seq::empty()
    } else if parts.len() == 1 {
        parts[0]
    } else {
        parts[0] + seq![separator()] + join(parts.drop_first())
    }
}

/// The views of the strings in `v`.
pub open spec fn texts(v: Seq<String>) -> Seq<Seq<char>> {
    v.map_values(|s: String| s@)
}

/// A token is never longer than the text it starts.
pub proof fn lemma_token_len_bound(s: Seq<char>)
    ensures
        token_len(s) <= s.len(),
        s.len() > 0 && !is_whitespace(s[0]) ==> token_len(s) > 0,
        whitespace_free(s.take(token_len(s) as int)),
        token_len(s) < s.len() ==> is_whitespace(s[token_len(s) as int]),
    decreases s.len(),
{
    if s.len() == 0 || is_whitespace(s[0]) {
    } else {
        let rest = s.drop_first();
        lemma_token_len_bound(rest);
        let n = token_len(s);
        assert forall|i: int| 0 <= i < n implies !is_whitespace(#[trigger] s.take(n as int)[i]) by {
            if i > 0 {
                assert(s.take(n as int)[i] == rest.take(n - 1)[i - 1]);
            }
        }
        if n < s.len() {
            assert(s[n as int] == rest[n - 1]);
        }
    }
}

/// A run of `n` characters without whitespace that ends the text, or is
/// followed by whitespace, is the token that starts the text.
pub proof fn lemma_token_len_is(s: Seq<char>, n: nat)
    requires
        n <= s.len(),
        whitespace_free(s.take(n as int)),
        n < s.len() ==> is_whitespace(s[n as int]),
    ensures
        token_len(s) == n,
    decreases n,
{
    if n == 0 {
    } else {
        assert(s.take(n as int)[0] == s[0]);
        let rest = s.drop_first();
        assert forall|i: int| 0 <= i < n - 1 implies !is_whitespace(#[trigger] rest.take(n - 1)[i]) by {
            assert(rest.take(n - 1)[i] == s.take(n as int)[i + 1]);
        }
        if n < s.len() {
            assert(rest[n - 1] == s[n as int]);
        }
        lemma_token_len_is(rest, (n - 1) as nat);
    }
}

/// Every token is non-empty and free of whitespace.
pub proof fn lemma_tokens_well_formed(s: Seq<char>)
    ensures
        forall|k: int|
            0 <= k < tokens(s).len() ==> (#[trigger] tokens(s)[k]).len() > 0 && whitespace_free(
                tokens(s)[k],
            ),
    decreases s.len(),
{
    if s.len() == 0 {
        assert(tokens(s).len() == 0);
    } else if is_whitespace(s[0]) {
        lemma_tokens_well_formed(s.drop_first());
        assert(tokens(s) == tokens(s.drop_first()));
    } else {
        lemma_token_len_bound(s);
        let n = token_len(s);
        let rest = tokens(s.skip(n as int));
        lemma_tokens_well_formed(s.skip(n as int));
        assert(tokens(s) == seq![s.take(n as int)] + rest);
        assert forall|k: int| 0 <= k < tokens(s).len() implies (#[trigger] tokens(s)[k]).len() > 0
            && whitespace_free(tokens(s)[k]) by {
            if k > 0 {
                assert(tokens(s)[k] == rest[k - 1]);
            } else {
                assert(tokens(s)[0] == s.take(n as int));
            }
        }
    }
}

/// Whitespace in front of a text adds no token.
pub proof fn lemma_tokens_skip_whitespace(s: Seq<char>, n: nat)
    requires
        n <= s.len(),
        forall|i: int| 0 <= i < n ==> is_whitespace(#[trigger] s[i]),
    ensures
        tokens(s) == tokens(s.skip(n as int)),
    decreases n,
{
    if n == 0 {
        assert(s.skip(0) =~= s);
    } else {
        let rest = s.drop_first();
        assert forall|i: int| 0 <= i < n - 1 implies is_whitespace(#[trigger] rest[i]) by {
            assert(rest[i] == s[i + 1]);
        }
        lemma_tokens_skip_whitespace(rest, (n - 1) as nat);
        assert(rest.skip(n - 1) =~= s.skip(n as int));
    }
}

/// A text that starts with a token of `n` characters has that token first
/// and then the tokens of what follows it.
pub proof fn lemma_tokens_first(s: Seq<char>, n: nat)
    requires
        0 < n <= s.len(),
        whitespace_free(s.take(n as int)),
        n < s.len() ==> is_whitespace(s[n as int]),
    ensures
        tokens(s) == seq![s.take(n as int)] + tokens(s.skip(n as int)),
{
    lemma_token_len_is(s, n);
    assert(s.take(n as int)[0] == s[0]);
}

/// Joining one more text onto a non-empty list puts a separator before it.
pub proof fn lemma_join_push(parts: Seq<Seq<char>>, last: Seq<char>)
    ensures
        join(parts.push(last)) == if parts.len() == 0 {
            last
        } else {
            join(parts) + seq![separator()] + last
        },
    decreases parts.len(),
{
    let all = parts.push(last);
    if parts.len() == 0 {
    } else if parts.len() == 1 {
        assert(all.drop_first() =~= seq![last]);
        assert(join(all.drop_first()) == last);
    } else {
        let rest = parts.drop_first();
        lemma_join_push(rest, last);
        assert(all.drop_first() =~= rest.push(last));
        assert(join(all) =~= parts[0] + seq![separator()] + (join(rest) + seq![separator()] + last));
        assert(join(all) =~= join(parts) + seq![separator()] + last);
    }
}

/// Splitting undoes joining: the tokens of a text joined from non-empty,
/// whitespace-free parts are those parts.
pub proof fn lemma_tokens_of_join(parts: Seq<Seq<char>>)
    requires
        forall|k: int| 0 <= k < parts.len() ==> (#[trigger] parts[k]).len() > 0 && whitespace_free(
            parts[k],
        ),
    ensures
        tokens(join(parts)) == parts,
    decreases parts.len(),
{
    if parts.len() == 0 {
    } else {
        let head = parts[0];
        let rest = parts.drop_first();
        let text = join(parts);
        let n = head.len();
        assert forall|k: int| 0 <= k < rest.len() implies (#[trigger] rest[k]).len() > 0
            && whitespace_free(rest[k]) by {
            assert(rest[k] == parts[k + 1]);
        }
        lemma_tokens_of_join(rest);
        if parts.len() == 1 {
            assert(text.take(n as int) =~= head);
            assert(text.skip(n as int) =~= Seq::<char>::empty());
            lemma_tokens_first(text, n);
            assert(tokens(text) =~= parts);
        } else {
            assert(text.take(n as int) =~= head);
            assert(text[n as int] == separator());
            lemma_tokens_first(text, n);
            let tail = text.skip(n as int);
            assert(tail[0] == separator());
            lemma_tokens_skip_whitespace(tail, 1);
            assert(tail.skip(1) =~= join(rest));
            assert(tokens(text) =~= parts);
        }
    }
}

/// Whether `c` is whitespace.
pub fn char_is_whitespace(c: char) -> (b: bool)
    ensures
        b == is_whitespace(c),
{
    let n: u32 = c as u32;
    (0x09 <= n && n <= 0x0D) || n == 0x20 || n == 0x85 || n == 0xA0 || n == 0x1680 || (0x2000 <= n
        && n <= 0x200A) || n == 0x2028 || n == 0x2029 || n == 0x202F || n == 0x205F || n == 0x3000
}

/// Splits `text` at whitespace into its tokens.
pub fn split_tokens(text: &str) -> (out: Vec<String>)
    ensures
        texts(out@) == tokens(text@),
        forall|k: int|
            0 <= k < out.len() ==> (#[trigger] out[k])@.len() > 0 && whitespace_free(out[k]@),
{
    let mut out: Vec<String> = Vec::new();
    let mut current = String::new();
    let mut it = text.chars();
    let ghost mut start: int = 0;
    let ghost mut at: int = 0;
    proof {
        assert(text@.skip(0) =~= text@);
        assert(texts(out@) =~= Seq::<Seq<char>>::empty());
    }
    loop
        invariant_except_break
            it.obeys_prophetic_iter_laws(),
            it.decrease() is Some,
            0 <= start <= at <= text@.len(),
            it.remaining() == text@.skip(at),
            current@ == text@.subrange(start, at),
            whitespace_free(current@),
            tokens(text@) == texts(out@) + tokens(text@.skip(start)),
        ensures
            texts(out@) == tokens(text@),
        decreases it.decrease()->0,
    {
        let ghost pending = text@.skip(start);
        let ghost n = (at - start) as nat;
        proof {
            assert(pending.take(n as int) =~= current@);
        }
        match it.next() {
            Some(c) => {
                proof {
                    assert(text@.skip(at)[0] == text@[at]);
                    assert(text@.skip(at).drop_first() =~= text@.skip(at + 1));
                }
                if char_is_whitespace(c) {
                    if current.as_str().is_empty() {
                        proof {
                            lemma_tokens_skip_whitespace(pending, 1);
                            assert(pending.skip(1) =~= text@.skip(at + 1));
                            start = at + 1;
                            at = at + 1;
                        }
                    } else {
                        proof {
                            assert(pending[n as int] == c);
                            lemma_tokens_first(pending, n);
                            let tail = pending.skip(n as int);
                            assert(tail[0] == c);
                            lemma_tokens_skip_whitespace(tail, 1);
                            assert(tail.skip(1) =~= text@.skip(at + 1));
                            assert(texts(out@.push(current)) =~= texts(out@).push(current@));
                            assert(tokens(text@) =~= texts(out@).push(current@) + tokens(
                                text@.skip(at + 1),
                            ));
                            start = at + 1;
                            at = at + 1;
                        }
                        out.push(current);
                        current = String::new();
                    }
                    proof {
                        assert(text@.subrange(start, at) =~= Seq::<char>::empty());
                    }
                } else {
                    current.push(c);
                    proof {
                        assert(text@.subrange(start, at + 1) =~= text@.subrange(start, at).push(c));
                        at = at + 1;
                    }
                }
            },
            None => {
                proof {
                    assert(at == text@.len());
                }
                if !current.as_str().is_empty() {
                    proof {
                        lemma_tokens_first(pending, n);
                        assert(pending.skip(n as int) =~= Seq::<char>::empty());
                        assert(texts(out@.push(current)) =~= texts(out@).push(current@));
                        assert(tokens(text@) =~= texts(out@).push(current@));
                    }
                    out.push(current);
                } else {
                    proof {
                        assert(pending =~= Seq::<char>::empty());
                        assert(tokens(text@) =~= texts(out@));
                    }
                }
                break ;
            },
        }
    }
    proof {
        lemma_tokens_well_formed(text@);
        assert forall|k: int| 0 <= k < out.len() implies (#[trigger] out[k])@.len() > 0
            && whitespace_free(out[k]@) by {
            assert(out[k]@ == texts(out@)[k]);
            assert(out[k]@ == tokens(text@)[k]);
        }
    }
    out
}

} // verus!
