//! Splitting text into terms: maximal alphanumeric runs outside markup spans.

use vstd::prelude::*;
use vstd::std_specs::iter::IteratorSpec;

verus! {

/// Whether the standard library classifies a character beyond ASCII as
/// alphanumeric.
pub uninterp spec fn alphanumeric_beyond_ascii(c: char) -> bool;

/// The ASCII digits and letters.
pub open spec fn ascii_alphanumeric(c: char) -> bool {
    ('0' <= c && c <= '9') || ('A' <= c && c <= 'Z') || ('a' <= c && c <= 'z')
}

/// Whether the standard library classifies `c` as alphanumeric. Among the
/// ASCII characters these are the digits and the letters.
pub open spec fn alphanumeric(c: char) -> bool {
    if c <= '\u{7f}' {
        ascii_alphanumeric(c)
    } else {
        alphanumeric_beyond_ascii(c)
    }
}

/// `char::is_alphanumeric` of the standard library: whether the character is
/// alphabetic or numeric by its Unicode classes. The contract claims that
/// below 128 these classes hold the ten digits and the fifty-two letters and
/// nothing else. Of a character from 128 on it claims only that the answer
/// depends on the character alone, and gives it a name.
pub assume_specification[ char::is_alphanumeric ](c: char) -> (b: bool)
    ensures
        b == alphanumeric(c),
        c > '\u{7f}' ==> b == alphanumeric_beyond_ascii(c),
;

/// `String::push` of the standard library: appends one character to the end
/// of the string and leaves the characters before it as they were.
pub assume_specification[ String::push ](s: &mut String, c: char)
    ensures
        final(s)@ == old(s)@.push(c),
;

/// The position just behind the first `>` at or after `i`, or the end of `s`
/// where there is none.
pub open spec fn span_end(s: Seq<char>, i: int) -> int
    decreases s.len() - i,
{
    if i < 0 || i >= s.len() {
        s.len() as int
    } else if s[i] == '>' {
        i + 1
    } else {
        span_end(s, i + 1)
    }
}

/// The end of the alphanumeric run that starts at `i`: the first position at
/// or after `i` that holds no alphanumeric character.
pub open spec fn run_end(s: Seq<char>, i: int) -> int
    decreases s.len() - i,
{
    if 0 <= i < s.len() && alphanumeric(s[i]) {
        run_end(s, i + 1)
    } else {
        i
    }
}

/// A markup span ends behind the place where it is looked for, and within
/// the text.
pub proof fn lemma_span_end_bounds(s: Seq<char>, i: int)
    requires
        0 <= i <= s.len(),
    ensures
        i <= span_end(s, i) <= s.len(),
        i < s.len() ==> i < span_end(s, i),
    decreases s.len() - i,
{
    if i < s.len() && s[i] != '>' {
        lemma_span_end_bounds(s, i + 1);
    }
}

/// An alphanumeric run ends within the text, and behind its first character
/// where it has one.
pub proof fn lemma_run_end_bounds(s: Seq<char>, i: int)
    requires
        0 <= i <= s.len(),
    ensures
        i <= run_end(s, i) <= s.len(),
        i < s.len() && alphanumeric(s[i]) ==> i < run_end(s, i),
    decreases s.len() - i,
{
    if i < s.len() && alphanumeric(s[i]) {
        lemma_run_end_bounds(s, i + 1);
    }
}

/// The terms of `s` from position `i` on, in the order in which they occur.
///
/// A `<` opens a markup span that reaches to the first `>` behind it (or to
/// the end of the text) and yields nothing. An alphanumeric character opens a
/// term, which is the whole run of alphanumeric characters from there. Any
/// other character is passed over.
pub open spec fn terms_from(s: Seq<char>, i: int) -> Seq<Seq<char>>
    decreases s.len() - i,
{
    if i < 0 || i >= s.len() {
        Seq::empty()
    } else if s[i] == '<' {
        proof {
            lemma_span_end_bounds(s, i + 1);
        }
        terms_from(s, span_end(s, i + 1))
    } else if alphanumeric(s[i]) {
        proof {
            lemma_run_end_bounds(s, i);
        }
        seq![s.subrange(i, run_end(s, i))] + terms_from(s, run_end(s, i))
    } else {
        terms_from(s, i + 1)
    }
}

/// The terms of a whole text.
pub open spec fn terms_of(s: Seq<char>) -> Seq<Seq<char>> {
    terms_from(s, 0)
}

/// A text without alphanumeric characters has no terms. The empty text is
/// one such text, and so is one made of punctuation alone.
pub proof fn lemma_no_alphanumeric_no_terms(s: Seq<char>)
    requires
        forall|k: int| 0 <= k < s.len() ==> !alphanumeric(#[trigger] s[k]),
    ensures
        terms_of(s) == Seq::<Seq<char>>::empty(),
{
    lemma_no_alphanumeric_no_terms_from(s, 0);
}

/// From no position on does a text without alphanumeric characters have a
/// term.
pub proof fn lemma_no_alphanumeric_no_terms_from(s: Seq<char>, i: int)
    requires
        forall|k: int| 0 <= k < s.len() ==> !alphanumeric(#[trigger] s[k]),
    ensures
        terms_from(s, i) == Seq::<Seq<char>>::empty(),
    decreases s.len() - i,
{
    if 0 <= i < s.len() {
        if s[i] == '<' {
            lemma_span_end_bounds(s, i + 1);
            lemma_no_alphanumeric_no_terms_from(s, span_end(s, i + 1));
        } else {
            lemma_no_alphanumeric_no_terms_from(s, i + 1);
        }
    }
}

/// Where no `>` stands at or after `i`, a markup span that is open at `i`
/// reaches to the end of the text.
pub proof fn lemma_unclosed_span_end(s: Seq<char>, i: int)
    requires
        0 <= i <= s.len(),
        forall|k: int| i <= k < s.len() ==> #[trigger] s[k] != '>',
    ensures
        span_end(s, i) == s.len(),
    decreases s.len() - i,
{
    if i < s.len() {
        lemma_unclosed_span_end(s, i + 1);
    }
}

/// A `<` with no `>` behind it swallows the rest of the text: no term comes
/// from its position on.
pub proof fn lemma_unclosed_span_no_terms(s: Seq<char>, i: int)
    requires
        0 <= i < s.len(),
        s[i] == '<',
        forall|k: int| i < k < s.len() ==> #[trigger] s[k] != '>',
    ensures
        terms_from(s, i) == Seq::<Seq<char>>::empty(),
{
    lemma_unclosed_span_end(s, i + 1);
    assert(terms_from(s, s.len() as int) == Seq::<Seq<char>>::empty());
}

/// A `<` with no `>` behind it swallows the rest of the text: where `before`
/// holds no `<` and `rest` holds no `>`, the terms of `before`, `<` and `rest`
/// in a row are the terms of `before`.
pub proof fn lemma_unclosed_span_drops_rest(before: Seq<char>, rest: Seq<char>)
    requires
        forall|k: int| 0 <= k < before.len() ==> #[trigger] before[k] != '<',
        forall|k: int| 0 <= k < rest.len() ==> #[trigger] rest[k] != '>',
    ensures
        terms_of(before + seq!['<'] + rest) == terms_of(before),
{
    lemma_same_terms_before_span(before, rest, 0);
}

proof fn lemma_same_terms_before_span(before: Seq<char>, rest: Seq<char>, i: int)
    requires
        forall|k: int| 0 <= k < before.len() ==> #[trigger] before[k] != '<',
        forall|k: int| 0 <= k < rest.len() ==> #[trigger] rest[k] != '>',
        0 <= i <= before.len(),
    ensures
        terms_from(before + seq!['<'] + rest, i) == terms_from(before, i),
    decreases before.len() - i,
{
    let text = before + seq!['<'] + rest;
    assert(text[before.len() as int] == '<');
    if i == before.len() {
        assert forall|k: int| i < k < text.len() implies #[trigger] text[k] != '>' by {
            assert(text[k] == rest[k - i - 1]);
        }
        lemma_unclosed_span_no_terms(text, i);
    } else {
        assert(text[i] == before[i]);
        if alphanumeric(before[i]) {
            lemma_same_run_before_span(before, rest, i);
            lemma_run_end_bounds(before, i);
            let end = run_end(before, i);
            assert(text.subrange(i, end) =~= before.subrange(i, end));
            lemma_same_terms_before_span(before, rest, end);
        } else {
            lemma_same_terms_before_span(before, rest, i + 1);
        }
    }
}

proof fn lemma_same_run_before_span(before: Seq<char>, rest: Seq<char>, i: int)
    requires
        0 <= i <= before.len(),
    ensures
        run_end(before + seq!['<'] + rest, i) == run_end(before, i),
    decreases before.len() - i,
{
    let text = before + seq!['<'] + rest;
    if i < before.len() {
        assert(text[i] == before[i]);
        if alphanumeric(before[i]) {
            lemma_same_run_before_span(before, rest, i + 1);
        }
    } else {
        assert(text[i] == '<');
        assert(!alphanumeric('<'));
    }
}

/// A term: one or more characters, all of them alphanumeric.
pub open spec fn is_term(t: Seq<char>) -> bool {
    &&& t.len() > 0
    &&& forall|k: int| 0 <= k < t.len() ==> alphanumeric(#[trigger] t[k])
}

/// Every element of the terms of a text is a term.
pub proof fn lemma_terms_alphanumeric(s: Seq<char>, i: int)
    ensures
        forall|t: int| 0 <= t < terms_from(s, i).len() ==> is_term(#[trigger] terms_from(s, i)[t]),
    decreases s.len() - i,
{
    if 0 <= i < s.len() {
        if s[i] == '<' {
            lemma_span_end_bounds(s, i + 1);
            lemma_terms_alphanumeric(s, span_end(s, i + 1));
            assert(terms_from(s, i) == terms_from(s, span_end(s, i + 1)));
        } else if alphanumeric(s[i]) {
            lemma_run_end_bounds(s, i);
            lemma_run_alphanumeric(s, i);
            lemma_terms_alphanumeric(s, run_end(s, i));
            let run = s.subrange(i, run_end(s, i));
            let rest = terms_from(s, run_end(s, i));
            assert(is_term(run)) by {
                assert forall|k: int| 0 <= k < run.len() implies alphanumeric(
                    #[trigger] run[k],
                ) by {
                    assert(run[k] == s[i + k]);
                }
            }
            assert forall|t: int| 0 <= t < terms_from(s, i).len() implies is_term(
                #[trigger] terms_from(s, i)[t],
            ) by {
                if t == 0 {
                    assert(terms_from(s, i)[t] == run);
                } else {
                    assert(terms_from(s, i)[t] == rest[t - 1]);
                }
            }
        } else {
            lemma_terms_alphanumeric(s, i + 1);
            assert(terms_from(s, i) == terms_from(s, i + 1));
        }
    } else {
        assert(terms_from(s, i).len() == 0);
    }
}

/// Every character of an alphanumeric run is alphanumeric, and the character
/// behind the run, if there is one, is not.
pub proof fn lemma_run_alphanumeric(s: Seq<char>, i: int)
    requires
        0 <= i <= s.len(),
    ensures
        forall|k: int| i <= k < run_end(s, i) ==> alphanumeric(#[trigger] s[k]),
        run_end(s, i) < s.len() ==> !alphanumeric(s[run_end(s, i)]),
    decreases s.len() - i,
{
    if i < s.len() && alphanumeric(s[i]) {
        lemma_run_alphanumeric(s, i + 1);
    }
}

/// The character sequences that a vector of strings stands for.
pub open spec fn term_views(terms: Seq<String>) -> Seq<Seq<char>> {
    terms.map_values(|t: String| t@)
}

/// The characters of `text`, one element each.
pub fn characters(text: &str) -> (chars: Vec<char>)
    ensures
        chars@ == text@,
{
    broadcast use vstd::string::axiom_spec_iter, vstd::string::next_postcondition;
    let mut chars: Vec<char> = Vec::new();
    let mut rest = text.chars();
    loop
        invariant
            chars@ + rest.remaining() == text@,
        ensures
            chars@ == text@,
        decreases text@.len() - chars@.len(),
    {
        match rest.next() {
            Some(c) => {
                chars.push(c);
            },
            None => {
                assert(chars@ + rest.remaining() =~= chars@);
                break;
            },
        }
    }
    chars
}

/// Scans `chars` from `start` for the next term. Returns the term, if one is
/// left, and the position at which the scan goes on behind it.
pub fn next_term(chars: &Vec<char>, start: usize) -> (found: (Option<String>, usize))
    requires
        start <= chars.len(),
    ensures
        start <= found.1 <= chars.len(),
        match found.0 {
            Some(term) => {
                &&& start < found.1
                &&& term@.len() > 0
                &&& terms_from(chars@, start as int) == seq![term@] + terms_from(
                    chars@,
                    found.1 as int,
                )
            },
            None => found.1 == chars.len() && terms_from(chars@, start as int) == Seq::<
                Seq<char>,
            >::empty(),
        },
{
    let n: usize = chars.len();
    let mut i: usize = start;
    while i < n
        invariant
            n == chars.len(),
            start <= i <= n,
            terms_from(chars@, start as int) == terms_from(chars@, i as int),
        decreases n - i,
    {
        let c: char = chars[i];
        if c == '<' {
            let mut j: usize = i + 1;
            while j < n && chars[j] != '>'
                invariant
                    n == chars.len(),
                    i < j <= n,
                    span_end(chars@, i + 1) == span_end(chars@, j as int),
                decreases n - j,
            {
                j = j + 1;
            }
            if j < n {
                j = j + 1;
            }
            i = j;
        } else if c.is_alphanumeric() {
            let mut term: String = String::new();
            let mut j: usize = i;
            while j < n && chars[j].is_alphanumeric()
                invariant
                    n == chars.len(),
                    i <= j <= n,
                    run_end(chars@, i as int) == run_end(chars@, j as int),
                    term@ == chars@.subrange(i as int, j as int),
                decreases n - j,
            {
                term.push(chars[j]);
                j = j + 1;
                assert(chars@.subrange(i as int, j as int) =~= chars@.subrange(
                    i as int,
                    j - 1,
                ).push(chars@[j - 1]));
            }
            return (Some(term), j);
        } else {
            i = i + 1;
        }
    }
    (None, i)
}

/// Splits `text` into its terms, in the order in which they occur. Case is
/// kept, and a term may occur more than once.
pub fn tokenize(text: String) -> (terms: Vec<String>)
    ensures
        term_views(terms@) == terms_of(text@),
{
    let chars = characters(text.as_str());
    let mut terms: Vec<String> = Vec::new();
    let mut at: usize = 0;
    loop
        invariant
            at <= chars.len(),
            chars@ == text@,
            term_views(terms@) + terms_from(chars@, at as int) == terms_of(text@),
        ensures
            term_views(terms@) == terms_of(text@),
        decreases chars.len() - at,
    {
        let (found, next) = next_term(&chars, at);
        match found {
            Some(term) => {
                proof {
                    assert(term_views(terms@.push(term)) =~= term_views(terms@).push(term@));
                    assert(term_views(terms@).push(term@) + terms_from(chars@, next as int)
                        =~= term_views(terms@) + (seq![term@] + terms_from(
                        chars@,
                        next as int,
                    )));
                }
                terms.push(term);
                at = next;
            },
            None => {
                assert(term_views(terms@) + Seq::<Seq<char>>::empty() =~= term_views(terms@));
                break;
            },
        }
    }
    terms
}

} // verus!
