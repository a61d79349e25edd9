//! Canonical spelling of a formula: lower case, no whitespace, and the
//! operator words of English and French replaced by `&&`, `||` and `!`.
//!
//! The words are replaced wherever their letters occur once the whitespace is
//! gone, in a fixed order: `and`, `or`, `not`, `et`, `ou`, `non`. Adjacent
//! letters that spell one of these words therefore always read as the
//! operator, never as variables. A letter of one of the words is still a
//! variable where it stands alone; `variables::ambiguous_variables` lists
//! the variables of a formula that are such letters.

use vstd::prelude::*;
use crate::text::{chars_of, lowercase_of, string_from_chars, to_lowercase};

verus! {

/// Whether `c` is a whitespace character (the Unicode property `White_Space`).
pub open spec fn is_space(c: char) -> bool {
    let u = c as u32;
    ||| 0x09 <= u <= 0x0D
    ||| u == 0x20
    ||| u == 0x85
    ||| u == 0xA0
    ||| u == 0x1680
    ||| 0x2000 <= u <= 0x200A
    ||| u == 0x2028
    ||| u == 0x2029
    ||| u == 0x202F
    ||| u == 0x205F
    ||| u == 0x3000
}

/// `s` without its whitespace characters.
pub open spec fn without_spaces(s: Seq<char>) -> Seq<char> {
    s.filter(|c: char| !is_space(c))
}

/// Whether `pattern` stands in `s` at index `at`.
pub open spec fn occurs_at(s: Seq<char>, at: int, pattern: Seq<char>) -> bool {
    &&& 0 <= at
    &&& at + pattern.len() <= s.len()
    &&& s.subrange(at, at + pattern.len()) == pattern
}

/// `s` with every occurrence of `pattern` replaced by `replacement`, found
/// from the left and without overlap.
pub open spec fn replaced(s: Seq<char>, pattern: Seq<char>, replacement: Seq<char>) -> Seq<char>
    decreases s.len(),
{
    if s.len() == 0 || pattern.len() == 0 {
        s
    } else if occurs_at(s, 0, pattern) {
        replacement + replaced(s.skip(pattern.len() as int), pattern, replacement)
    } else {
        seq![s[0]] + replaced(s.skip(1), pattern, replacement)
    }
}

/// The canonical spelling of AND.
pub open spec fn and_symbol() -> Seq<char> {
    seq!['&', '&']
}

/// The canonical spelling of OR.
pub open spec fn or_symbol() -> Seq<char> {
    seq!['|', '|']
}

/// The canonical spelling of NOT.
pub open spec fn not_symbol() -> Seq<char> {
    seq!['!']
}

/// The operator words, in the order in which they are replaced: the English
/// `and`, `or`, `not`, then the French `et`, `ou`, `non`.
pub open spec fn operator_words() -> Seq<Seq<char>> {
    seq![
        seq!['a', 'n', 'd'],
        seq!['o', 'r'],
        seq!['n', 'o', 't'],
        seq!['e', 't'],
        seq!['o', 'u'],
        seq!['n', 'o', 'n'],
    ]
}

/// `s` with the English operator words replaced by their symbols.
pub open spec fn english_replaced(s: Seq<char>) -> Seq<char> {
    let s1 = replaced(s, operator_words()[0], and_symbol());
    let s2 = replaced(s1, operator_words()[1], or_symbol());
    replaced(s2, operator_words()[2], not_symbol())
}

/// `s` with the French operator words replaced by their symbols.
pub open spec fn french_replaced(s: Seq<char>) -> Seq<char> {
    let s1 = replaced(s, operator_words()[3], and_symbol());
    let s2 = replaced(s1, operator_words()[4], or_symbol());
    replaced(s2, operator_words()[5], not_symbol())
}

/// The canonical form of a formula that is already in lower case.
pub open spec fn canonical_form(lowered: Seq<char>) -> Seq<char> {
    french_replaced(english_replaced(without_spaces(lowered)))
}

/// The canonical form of a formula as it was typed.
pub open spec fn normal_form(text: Seq<char>) -> Seq<char> {
    canonical_form(lowercase_of(text))
}

/// Whether `s` holds no whitespace.
pub open spec fn free_of_spaces(s: Seq<char>) -> bool {
    forall|i: int| 0 <= i < s.len() ==> !is_space(#[trigger] s[i])
}

/// Tells whether `c` is a whitespace character.
pub fn is_space_char(c: char) -> (b: bool)
    ensures
        b == is_space(c),
{
    let u: u32 = c as u32;
    (0x09 <= u && u <= 0x0D) || u == 0x20 || u == 0x85 || u == 0xA0 || u == 0x1680 || (0x2000 <= u
        && u <= 0x200A) || u == 0x2028 || u == 0x2029 || u == 0x202F || u == 0x205F || u == 0x3000
}

/// Copies `chars` without its whitespace characters.
pub fn strip_spaces(chars: &Vec<char>) -> (kept: Vec<char>)
    ensures
        kept@ == without_spaces(chars@),
{
    let ghost keep = |c: char| !is_space(c);
    let mut kept: Vec<char> = Vec::new();
    let mut i: usize = 0;
    while i < chars.len()
        invariant
            i <= chars.len(),
            keep == (|c: char| !is_space(c)),
            kept@ == chars@.take(i as int).filter(keep),
        decreases chars.len() - i,
    {
        let c = chars[i];
        proof {
            reveal(Seq::filter);
            assert(chars@.take(i + 1).drop_last() == chars@.take(i as int));
        }
        if !is_space_char(c) {
            kept.push(c);
        }
        i += 1;
    }
    proof {
        assert(chars@.take(i as int) == chars@);
    }
    kept
}

/// Tells whether `pattern` stands in `text` at index `at`.
pub fn matches_at(text: &Vec<char>, at: usize, pattern: &Vec<char>) -> (b: bool)
    requires
        at <= text.len(),
    ensures
        b == occurs_at(text@, at as int, pattern@),
{
    if pattern.len() > text.len() - at {
        return false;
    }
    let mut k: usize = 0;
    while k < pattern.len()
        invariant
            k <= pattern.len(),
            at + pattern.len() <= text.len(),
            forall|j: int| 0 <= j < k ==> text@[at + j] == pattern@[j],
        decreases pattern.len() - k,
    {
        if text[at + k] != pattern[k] {
            proof {
                let window = text@.subrange(at as int, at + pattern.len());
                assert(window[k as int] != pattern@[k as int]);
            }
            return false;
        }
        k += 1;
    }
    proof {
        assert(text@.subrange(at as int, at + pattern.len()) =~= pattern@);
    }
    true
}

/// Replaces every occurrence of `pattern` in `text` by `replacement`, found
/// from the left and without overlap.
pub fn replace_all(text: &Vec<char>, pattern: &Vec<char>, replacement: &Vec<char>) -> (out: Vec<
    char,
>)
    ensures
        out@ == replaced(text@, pattern@, replacement@),
{
    if pattern.len() == 0 {
        return text.clone();
    }
    let mut out: Vec<char> = Vec::new();
    let mut i: usize = 0;
    proof {
        assert(text@.skip(0) == text@);
        assert(out@ + replaced(text@, pattern@, replacement@) == replaced(
            text@,
            pattern@,
            replacement@,
        ));
    }
    while i < text.len()
        invariant
            i <= text.len(),
            pattern.len() > 0,
            replaced(text@, pattern@, replacement@) == out@ + replaced(
                text@.skip(i as int),
                pattern@,
                replacement@,
            ),
        decreases text.len() - i,
    {
        let ghost rest = text@.skip(i as int);
        let ghost before = out@;
        if matches_at(text, i, pattern) {
            proof {
                assert(rest.subrange(0, pattern.len() as int) == text@.subrange(
                    i as int,
                    i + pattern.len(),
                ));
                assert(rest.skip(pattern.len() as int) == text@.skip(i + pattern.len()));
            }
            let mut k: usize = 0;
            while k < replacement.len()
                invariant
                    k <= replacement.len(),
                    out@ == before + replacement@.take(k as int),
                decreases replacement.len() - k,
            {
                out.push(replacement[k]);
                proof {
                    assert(replacement@.take(k + 1) == replacement@.take(k as int).push(
                        replacement@[k as int],
                    ));
                }
                k += 1;
            }
            proof {
                assert(replacement@.take(k as int) == replacement@);
                assert(before + (replacement@ + replaced(
                    rest.skip(pattern.len() as int),
                    pattern@,
                    replacement@,
                )) == (before + replacement@) + replaced(
                    rest.skip(pattern.len() as int),
                    pattern@,
                    replacement@,
                ));
            }
            i += pattern.len();
        } else {
            proof {
                if i + pattern.len() <= text.len() {
                    assert(rest.subrange(0, pattern.len() as int) == text@.subrange(
                        i as int,
                        i + pattern.len(),
                    ));
                }
                assert(rest.skip(1) == text@.skip(i + 1));
                assert(before + (seq![rest[0]] + replaced(rest.skip(1), pattern@, replacement@))
                    == before.push(text@[i as int]) + replaced(
                    rest.skip(1),
                    pattern@,
                    replacement@,
                ));
            }
            out.push(text[i]);
            i += 1;
        }
    }
    proof {
        assert(text@.skip(i as int).len() == 0);
    }
    out
}

/// Puts a lower-case formula into canonical form: strips the whitespace, then
/// replaces the operator words, the English ones first.
pub fn canonicalize(lowered: &str) -> (canonical: String)
    ensures
        canonical@ == canonical_form(lowered@),
        free_of_spaces(canonical@),
{
    proof {
        lemma_canonical_form_free_of_spaces(lowered@);
    }
    let chars = chars_of(lowered);
    let bare = strip_spaces(&chars);
    let and_symbol: Vec<char> = vec!['&', '&'];
    let or_symbol: Vec<char> = vec!['|', '|'];
    let not_symbol: Vec<char> = vec!['!'];
    let word_and: Vec<char> = vec!['a', 'n', 'd'];
    let word_or: Vec<char> = vec!['o', 'r'];
    let word_not: Vec<char> = vec!['n', 'o', 't'];
    let word_et: Vec<char> = vec!['e', 't'];
    let word_ou: Vec<char> = vec!['o', 'u'];
    let word_non: Vec<char> = vec!['n', 'o', 'n'];
    proof {
        assert(and_symbol@ == self::and_symbol());
        assert(or_symbol@ == self::or_symbol());
        assert(not_symbol@ == self::not_symbol());
        assert(word_and@ == operator_words()[0]);
        assert(word_or@ == operator_words()[1]);
        assert(word_not@ == operator_words()[2]);
        assert(word_et@ == operator_words()[3]);
        assert(word_ou@ == operator_words()[4]);
        assert(word_non@ == operator_words()[5]);
    }
    let s1 = replace_all(&bare, &word_and, &and_symbol);
    let s2 = replace_all(&s1, &word_or, &or_symbol);
    let s3 = replace_all(&s2, &word_not, &not_symbol);
    let s4 = replace_all(&s3, &word_et, &and_symbol);
    let s5 = replace_all(&s4, &word_ou, &or_symbol);
    let s6 = replace_all(&s5, &word_non, &not_symbol);
    string_from_chars(&s6)
}

/// Puts a formula into canonical form: lower case, whitespace stripped,
/// operator words replaced by `&&`, `||` and `!`.
pub fn normalize(text: &str) -> (normalized: String)
    ensures
        normalized@ == normal_form(text@),
        free_of_spaces(normalized@),
{
    let lowered = to_lowercase(text);
    canonicalize(lowered.as_str())
}

/// Replacing a pattern by text without whitespace brings no whitespace in.
pub proof fn lemma_replaced_free_of_spaces(
    s: Seq<char>,
    pattern: Seq<char>,
    replacement: Seq<char>,
)
    requires
        free_of_spaces(s),
        free_of_spaces(replacement),
    ensures
        free_of_spaces(replaced(s, pattern, replacement)),
    decreases s.len(),
{
    if s.len() == 0 || pattern.len() == 0 {
    } else if occurs_at(s, 0, pattern) {
        let rest = s.skip(pattern.len() as int);
        assert forall|i: int| 0 <= i < rest.len() implies !is_space(#[trigger] rest[i]) by {
            assert(rest[i] == s[i + pattern.len()]);
        }
        lemma_replaced_free_of_spaces(rest, pattern, replacement);
    } else {
        let rest = s.skip(1);
        assert forall|i: int| 0 <= i < rest.len() implies !is_space(#[trigger] rest[i]) by {
            assert(rest[i] == s[i + 1]);
        }
        lemma_replaced_free_of_spaces(rest, pattern, replacement);
    }
}

/// A canonical formula holds no whitespace.
pub proof fn lemma_canonical_form_free_of_spaces(lowered: Seq<char>)
    ensures
        free_of_spaces(canonical_form(lowered)),
{
    let keep = |c: char| !is_space(c);
    let bare = without_spaces(lowered);
    assert forall|i: int| 0 <= i < bare.len() implies !is_space(#[trigger] bare[i]) by {
        lowered.lemma_filter_pred(keep, i);
    }
    let words = operator_words();
    let s1 = replaced(bare, words[0], and_symbol());
    let s2 = replaced(s1, words[1], or_symbol());
    let s3 = replaced(s2, words[2], not_symbol());
    let s4 = replaced(s3, words[3], and_symbol());
    let s5 = replaced(s4, words[4], or_symbol());
    lemma_replaced_free_of_spaces(bare, words[0], and_symbol());
    lemma_replaced_free_of_spaces(s1, words[1], or_symbol());
    lemma_replaced_free_of_spaces(s2, words[2], not_symbol());
    lemma_replaced_free_of_spaces(s3, words[3], and_symbol());
    lemma_replaced_free_of_spaces(s4, words[4], or_symbol());
    lemma_replaced_free_of_spaces(s5, words[5], not_symbol());
}

} // verus!
