//! The lexer: turns raw character content into a finite sequence of
//! normalized tokens.
//!
//! A token is a maximal run of numeric characters, a maximal run of
//! alphanumeric characters starting with an alphabetic one (upper-cased), or
//! a single non-whitespace symbol.  Whitespace separates tokens and is never
//! emitted.  `spec_tokens` is the mathematical model of the whole process.

use vstd::prelude::*;
use vstd::slice::{slice_index_get, slice_subrange};

use crate::chars::{
    char_is_alphabetic, char_is_alphanumeric, char_is_numeric, char_is_whitespace, char_to_upper,
    chars_to_string, is_alnum_c, is_alphabetic_c, is_ascii_lower, is_numeric_c, is_whitespace_c,
    lemma_upper_not_lower, upper_char,
};

verus! {

/// `s` without its leading whitespace.
pub open spec fn skip_ws(s: Seq<char>) -> Seq<char>
    decreases s.len(),
{
    if s.len() > 0 && is_whitespace_c(s[0]) {
        skip_ws(s.skip(1))
    } else {
        s
    }
}

/// Length of the maximal leading run of numeric characters.
pub open spec fn numeric_run_len(s: Seq<char>) -> nat
    decreases s.len(),
{
    if s.len() > 0 && is_numeric_c(s[0]) {
        (1 + numeric_run_len(s.skip(1))) as nat
    } else {
        0
    }
}

/// Length of the maximal leading run of alphanumeric characters.
pub open spec fn alnum_run_len(s: Seq<char>) -> nat
    decreases s.len(),
{
    if s.len() > 0 && is_alnum_c(s[0]) {
        (1 + alnum_run_len(s.skip(1))) as nat
    } else {
        0
    }
}

/// The next token of `s` and the remaining input, or `None` when only
/// whitespace (or nothing) is left.
pub open spec fn next_token_spec(s: Seq<char>) -> Option<(Seq<char>, Seq<char>)> {
    let t = skip_ws(s);
    if t.len() == 0 {
        None
    } else if is_numeric_c(t[0]) {
        let n = numeric_run_len(t) as int;
        Some((t.take(n), t.skip(n)))
    } else if is_alphabetic_c(t[0]) {
        let n = alnum_run_len(t) as int;
        Some((t.take(n).map_values(|c: char| upper_char(c)), t.skip(n)))
    } else {
        Some((t.take(1), t.skip(1)))
    }
}

/// The full token sequence of `s`.
pub open spec fn spec_tokens(s: Seq<char>) -> Seq<Seq<char>>
    decreases s.len(),
    via spec_tokens_dec
{
    match next_token_spec(s) {
        None => Seq::empty(),
        Some((tok, rest)) => seq![tok] + spec_tokens(rest),
    }
}

#[via_fn]
proof fn spec_tokens_dec(s: Seq<char>) {
    if next_token_spec(s) is Some {
        lemma_next_token_shrinks(s);
    }
}

/// The views of a vector of tokens.
pub open spec fn views_of(ts: Seq<String>) -> Seq<Seq<char>> {
    ts.map_values(|t: String| t@)
}

pub proof fn lemma_skip_ws_len(s: Seq<char>)
    ensures
        skip_ws(s).len() <= s.len(),
    decreases s.len(),
{
    if s.len() > 0 && is_whitespace_c(s[0]) {
        lemma_skip_ws_len(s.skip(1));
    }
}

pub proof fn lemma_numeric_run_props(s: Seq<char>)
    ensures
        numeric_run_len(s) <= s.len(),
        forall|i: int| 0 <= i < numeric_run_len(s) ==> is_numeric_c(#[trigger] s[i]),
        numeric_run_len(s) < s.len() ==> !is_numeric_c(s[numeric_run_len(s) as int]),
    decreases s.len(),
{
    if s.len() > 0 && is_numeric_c(s[0]) {
        lemma_numeric_run_props(s.skip(1));
        assert forall|i: int| 0 <= i < numeric_run_len(s) implies is_numeric_c(#[trigger] s[i]) by {
            if i >= 1 {
                assert(s.skip(1)[i - 1] == s[i]);
            }
        }
        if numeric_run_len(s) < s.len() {
            assert(s.skip(1)[numeric_run_len(s) - 1] == s[numeric_run_len(s) as int]);
        }
    }
}

pub proof fn lemma_alnum_run_props(s: Seq<char>)
    ensures
        alnum_run_len(s) <= s.len(),
        forall|i: int| 0 <= i < alnum_run_len(s) ==> is_alnum_c(#[trigger] s[i]),
        alnum_run_len(s) < s.len() ==> !is_alnum_c(s[alnum_run_len(s) as int]),
    decreases s.len(),
{
    if s.len() > 0 && is_alnum_c(s[0]) {
        lemma_alnum_run_props(s.skip(1));
        assert forall|i: int| 0 <= i < alnum_run_len(s) implies is_alnum_c(#[trigger] s[i]) by {
            if i >= 1 {
                assert(s.skip(1)[i - 1] == s[i]);
            }
        }
        if alnum_run_len(s) < s.len() {
            assert(s.skip(1)[alnum_run_len(s) - 1] == s[alnum_run_len(s) as int]);
        }
    }
}

/// A run of characters that all satisfy the numeric class, stopped by a
/// non-numeric character or the end, is exactly the maximal numeric run.
pub proof fn lemma_numeric_run_is(s: Seq<char>, n: int)
    requires
        0 <= n <= s.len(),
        forall|i: int| 0 <= i < n ==> is_numeric_c(#[trigger] s[i]),
        n < s.len() ==> !is_numeric_c(s[n]),
    ensures
        numeric_run_len(s) == n,
    decreases n,
{
    if n == 0 {
    } else {
        assert(is_numeric_c(s[0]));
        assert forall|i: int| 0 <= i < n - 1 implies is_numeric_c(#[trigger] s.skip(1)[i]) by {
            assert(s.skip(1)[i] == s[i + 1]);
        }
        if n - 1 < s.skip(1).len() {
            assert(s.skip(1)[n - 1] == s[n]);
        }
        lemma_numeric_run_is(s.skip(1), n - 1);
    }
}

/// The alphanumeric counterpart of `lemma_numeric_run_is`.
pub proof fn lemma_alnum_run_is(s: Seq<char>, n: int)
    requires
        0 <= n <= s.len(),
        forall|i: int| 0 <= i < n ==> is_alnum_c(#[trigger] s[i]),
        n < s.len() ==> !is_alnum_c(s[n]),
    ensures
        alnum_run_len(s) == n,
    decreases n,
{
    if n == 0 {
    } else {
        assert(is_alnum_c(s[0]));
        assert forall|i: int| 0 <= i < n - 1 implies is_alnum_c(#[trigger] s.skip(1)[i]) by {
            assert(s.skip(1)[i] == s[i + 1]);
        }
        if n - 1 < s.skip(1).len() {
            assert(s.skip(1)[n - 1] == s[n]);
        }
        lemma_alnum_run_is(s.skip(1), n - 1);
    }
}

/// Consuming one token strictly shrinks the input.
pub proof fn lemma_next_token_shrinks(s: Seq<char>)
    requires
        next_token_spec(s) is Some,
    ensures
        (next_token_spec(s)->Some_0).0.len() >= 1,
        (next_token_spec(s)->Some_0).1.len() < s.len(),
{
    let t = skip_ws(s);
    lemma_skip_ws_len(s);
    if is_numeric_c(t[0]) {
        lemma_numeric_run_props(t);
        assert(numeric_run_len(t) >= 1);
    } else if is_alphabetic_c(t[0]) {
        lemma_alnum_run_props(t);
        assert(is_alnum_c(t[0]));
        assert(alnum_run_len(t) >= 1);
    } else {
    }
}

/// A restartable cursor over character content; each call of `next_token`
/// consumes one token.  Re-tokenizing means building a fresh `Lexer` over the
/// same content.
pub struct Lexer<'a> {
    content: &'a [char],
}

impl<'a> View for Lexer<'a> {
    type V = Seq<char>;

    closed spec fn view(&self) -> Seq<char> {
        self.content@
    }
}

impl<'a> Lexer<'a> {
    pub fn new(content: &'a [char]) -> (l: Self)
        ensures
            l@ == content@,
    {
        Self { content }
    }

    /// Drop leading whitespace.
    fn trim_left(&mut self)
        ensures
            final(self)@ == skip_ws(old(self)@),
    {
        let ghost orig = self.content@;
        while self.content.len() > 0 && char_is_whitespace(*slice_index_get(self.content, 0))
            invariant
                skip_ws(self.content@) == skip_ws(orig),
            decreases self.content@.len(),
        {
            self.content = slice_subrange(self.content, 1, self.content.len());
        }
    }

    /// Split off the first `n` characters.
    fn chop(&mut self, n: usize) -> (r: &'a [char])
        requires
            n <= old(self)@.len(),
        ensures
            r@ == old(self)@.take(n as int),
            final(self)@ == old(self)@.skip(n as int),
    {
        let token = slice_subrange(self.content, 0, n);
        self.content = slice_subrange(self.content, n, self.content.len());
        token
    }

    /// Split off the maximal prefix whose characters satisfy `predicate`.
    fn chop_while<P: Fn(char) -> bool>(&mut self, predicate: P) -> (r: &'a [char])
        requires
            forall|c: char| #[trigger] call_requires(predicate, (c,)),
        ensures
            r@.len() <= old(self)@.len(),
            r@ == old(self)@.take(r@.len() as int),
            final(self)@ == old(self)@.skip(r@.len() as int),
            forall|i: int|
                0 <= i < r@.len() ==> call_ensures(predicate, (#[trigger] old(self)@[i],), true),
            r@.len() < old(self)@.len() ==> call_ensures(
                predicate,
                (old(self)@[r@.len() as int],),
                false,
            ),
    {
        let ghost s = self.content@;
        let mut n: usize = 0;
        loop
            invariant
                n <= s.len(),
                self.content@ == s,
                forall|i: int| 0 <= i < n ==> call_ensures(predicate, (#[trigger] s[i],), true),
                forall|c: char| #[trigger] call_requires(predicate, (c,)),
            ensures
                n <= s.len(),
                self.content@ == s,
                forall|i: int| 0 <= i < n ==> call_ensures(predicate, (#[trigger] s[i],), true),
                n < s.len() ==> call_ensures(predicate, (s[n as int],), false),
            decreases s.len() - n,
        {
            if n >= self.content.len() {
                break;
            }
            let b = predicate(*slice_index_get(self.content, n));
            if !b {
                break;
            }
            n = n + 1;
        }
        self.chop(n)
    }

    /// Produce the next token, or `None` when the input is exhausted.
    pub fn next_token(&mut self) -> (r: Option<String>)
        ensures
            match next_token_spec(old(self)@) {
                None => r is None && final(self)@.len() == 0,
                Some((tok, rest)) => r matches Some(t) && t@ == tok && final(self)@ == rest,
            },
    {
        self.trim_left();
        let ghost t = self.content@;
        if self.content.len() == 0 {
            return None;
        }
        let c0: char = *slice_index_get(self.content, 0);
        if char_is_numeric(c0) {
            let pred = |x: char| -> (b: bool)
                ensures
                    b == is_numeric_c(x),
                {
                    char_is_numeric(x)
                };
            let run = self.chop_while(pred);
            proof {
                assert forall|i: int| 0 <= i < run@.len() implies is_numeric_c(#[trigger] t[i]) by {
                    assert(call_ensures(pred, (t[i],), true));
                }
                lemma_numeric_run_is(t, run@.len() as int);
            }
            Some(chars_to_string(run))
        } else if char_is_alphabetic(c0) {
            let pred = |x: char| -> (b: bool)
                ensures
                    b == is_alnum_c(x),
                {
                    char_is_alphanumeric(x)
                };
            let run = self.chop_while(pred);
            proof {
                assert forall|i: int| 0 <= i < run@.len() implies is_alnum_c(#[trigger] t[i]) by {
                    assert(call_ensures(pred, (t[i],), true));
                }
                lemma_alnum_run_is(t, run@.len() as int);
            }
            let mut out: Vec<char> = Vec::new();
            let mut i: usize = 0;
            while i < run.len()
                invariant
                    i <= run@.len(),
                    out@.len() == i,
                    forall|j: int| 0 <= j < i ==> out@[j] == upper_char(#[trigger] run@[j]),
                decreases run@.len() - i,
            {
                let c = *slice_index_get(run, i);
                out.push(char_to_upper(c));
                i = i + 1;
            }
            proof {
                let tok = (next_token_spec(old(self)@)->Some_0).0;
                assert(out@ =~= tok);
            }
            Some(chars_to_string(out.as_slice()))
        } else {
            let run = self.chop(1);
            Some(chars_to_string(run))
        }
    }
}

/// What total case-folding leaves behind: a token is a run of numeric
/// characters (emitted verbatim), a single symbol, or carries no ASCII
/// lower-case letter at all.
pub open spec fn token_case_folded(tok: Seq<char>) -> bool {
    ||| tok.len() == 1
    ||| forall|j: int| 0 <= j < tok.len() ==> is_numeric_c(#[trigger] tok[j])
    ||| forall|j: int| 0 <= j < tok.len() ==> !is_ascii_lower(#[trigger] tok[j])
}

/// Law: alphabetic tokens are emitted fully upper-cased, whatever the case
/// mixture of the input.  Every token the lexer produces is a digit run, a
/// single symbol, or contains no ASCII lower-case letter.
pub proof fn lemma_tokens_case_folded(s: Seq<char>)
    ensures
        forall|i: int|
            0 <= i < spec_tokens(s).len() ==> token_case_folded(#[trigger] spec_tokens(s)[i]),
    decreases s.len(),
{
    if next_token_spec(s) is Some {
        lemma_next_token_shrinks(s);
        let (tok, rest) = next_token_spec(s)->Some_0;
        lemma_tokens_case_folded(rest);
        let t = skip_ws(s);
        if is_numeric_c(t[0]) {
            lemma_numeric_run_props(t);
            assert forall|j: int| 0 <= j < tok.len() implies is_numeric_c(#[trigger] tok[j]) by {
                assert(tok[j] == t[j]);
            }
            assert(token_case_folded(tok));
        } else if is_alphabetic_c(t[0]) {
            let n = alnum_run_len(t) as int;
            assert forall|j: int| 0 <= j < tok.len() implies !is_ascii_lower(#[trigger] tok[j]) by {
                assert(tok[j] == upper_char(t.take(n)[j]));
                lemma_upper_not_lower(t.take(n)[j]);
            }
            assert(token_case_folded(tok));
        } else {
            assert(tok.len() == 1);
        }
        assert forall|i: int|
            0 <= i < spec_tokens(s).len() implies token_case_folded(
            #[trigger] spec_tokens(s)[i],
        ) by {
            if i == 0 {
                assert(spec_tokens(s)[0] == tok);
            } else {
                assert(spec_tokens(s)[i] == spec_tokens(rest)[i - 1]);
            }
        }
    }
}

/// Law: whitespace only separates.  A leading whitespace character never
/// changes the token sequence; with `lemma_empty_input_no_tokens`, runs of
/// whitespace around tokens are interchangeable with single separators.
pub proof fn lemma_leading_whitespace_ignored(w: char, s: Seq<char>)
    requires
        is_whitespace_c(w),
    ensures
        spec_tokens(seq![w] + s) == spec_tokens(s),
{
    assert((seq![w] + s)[0] == w);
    assert((seq![w] + s).skip(1) =~= s);
    assert(skip_ws(seq![w] + s) == skip_ws(s));
}

/// Law: an empty query tokenizes to nothing, so every document's score is a
/// sum over no terms — zero — and `search_terms` still returns one result
/// per indexed document, in index order.
pub proof fn lemma_empty_input_no_tokens(s: Seq<char>)
    requires
        s.len() == 0,
    ensures
        spec_tokens(s).len() == 0,
{
    assert(skip_ws(s) == s);
}

/// Tokenize whole content: the executable form of `spec_tokens`.
pub fn tokenize(content: &[char]) -> (tokens: Vec<String>)
    ensures
        views_of(tokens@) == spec_tokens(content@),
        tokens@.len() == spec_tokens(content@).len(),
        forall|i: int| 0 <= i < tokens@.len() ==> tokens@[i]@ == spec_tokens(content@)[i],
{
    let mut lexer = Lexer::new(content);
    let mut tokens: Vec<String> = Vec::new();
    proof {
        assert(views_of(tokens@) + spec_tokens(lexer@) =~= spec_tokens(content@));
    }
    loop
        invariant
            views_of(tokens@) + spec_tokens(lexer@) == spec_tokens(content@),
        ensures
            views_of(tokens@) == spec_tokens(content@),
        decreases lexer@.len(),
    {
        let ghost pre = lexer@;
        let r = lexer.next_token();
        match r {
            None => {
                proof {
                    assert(spec_tokens(pre) =~= Seq::<Seq<char>>::empty());
                    assert(views_of(tokens@) + spec_tokens(pre) =~= views_of(tokens@));
                }
                break;
            }
            Some(tok) => {
                proof {
                    lemma_next_token_shrinks(pre);
                }
                let ghost before = tokens@;
                tokens.push(tok);
                proof {
                    let (tk, rest) = next_token_spec(pre)->Some_0;
                    assert(views_of(tokens@) =~= views_of(before) + seq![tk]);
                    assert(views_of(before) + seq![tk] + spec_tokens(rest) =~= views_of(before)
                        + spec_tokens(pre));
                }
            }
        }
    }
    proof {
        assert forall|i: int| 0 <= i < tokens@.len() implies tokens@[i]@ == spec_tokens(
            content@,
        )[i] by {
            assert(views_of(tokens@)[i] == tokens@[i]@);
        }
    }
    tokens
}

} // verus!
