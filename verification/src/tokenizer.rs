//! The tokenizer: separators are blanked out, then the text is cut at runs of
//! white space.

use vstd::prelude::*;

verus! {

/// The characters with the Unicode property `White_Space`.
pub open spec fn is_space(c: char) -> bool {
    let n = c as u32;
    ||| 0x09 <= n <= 0x0D
    ||| n == 0x20
    ||| n == 0x85
    ||| n == 0xA0
    ||| n == 0x1680
    ||| 0x2000 <= n <= 0x200A
    ||| n == 0x2028
    ||| n == 0x2029
    ||| n == 0x202F
    ||| n == 0x205F
    ||| n == 0x3000
}

/// The characters that normalization leaves as they are: ASCII letters, ASCII
/// digits, white space, the apostrophe and the closing parenthesis.
pub open spec fn survives(c: char) -> bool {
    ||| 'a' <= c <= 'z'
    ||| 'A' <= c <= 'Z'
    ||| '0' <= c <= '9'
    ||| is_space(c)
    ||| c == '\''
    ||| c == ')'
}

/// What normalization makes of one character.
pub open spec fn blanked(c: char) -> char {
    if survives(c) {
        c
    } else {
        ' '
    }
}

/// The text with every separator replaced by one space.
pub open spec fn normalized(text: Seq<char>) -> Seq<char> {
    Seq::new(text.len(), |i: int| blanked(text[i]))
}

/// The length of the longest prefix of `s` that holds no white space.
pub open spec fn word_len(s: Seq<char>) -> nat
    decreases s.len(),
{
    if s.len() == 0 || is_space(s[0]) {
        0
    } else {
        1 + word_len(s.drop_first())
    }
}

/// The maximal runs of characters other than white space, from left to right.
pub open spec fn words(s: Seq<char>) -> Seq<Seq<char>>
    decreases s.len(),
{
    if s.len() == 0 {
        Seq::empty()
    } else if is_space(s[0]) {
        words(s.drop_first())
    } else {
        let n = word_len(s) as int;
        if 0 < n <= s.len() {
            seq![s.take(n)] + words(s.skip(n))
        } else {
            Seq::empty()
        }
    }
}

/// The tokens of a text: the words of its normalized form.
pub open spec fn tokens_of(text: Seq<char>) -> Seq<Seq<char>> {
    words(normalized(text))
}

/// The character sequences that a list of strings stands for.
pub open spec fn views(v: Seq<String>) -> Seq<Seq<char>> {
    Seq::new(v.len(), |i: int| v[i]@)
}

/// The pattern that matches one separator character.
pub open spec fn separator_pattern() -> Seq<char> {
    "[^a-zA-Z0-9\\s'\\)]"@
}

/// Calls `regex::Regex::new` on the pattern and `Regex::replace_all` on the
/// text with that pattern. The pattern is one negated character class, so a
/// match is exactly one character outside the class, and the replacement holds
/// no `$`: each such character becomes the replacement, every other stays.
#[verifier::external_body]
fn replace_separators(pattern: &str, text: &str, blank: &str) -> (out: String)
    requires
        pattern@ == separator_pattern(),
        blank@ == seq![' '],
    ensures
        out@ == normalized(text@),
{
    let re = regex::Regex::new(pattern).unwrap();
    re.replace_all(text, blank).into_owned()
}

/// Whether the character is white space.
pub fn is_whitespace(c: char) -> (b: bool)
    ensures
        b == is_space(c),
{
    let n: u32 = c as u32;
    (0x09 <= n && n <= 0x0D) || n == 0x20 || n == 0x85 || n == 0xA0 || n == 0x1680 || (0x2000 <= n
        && n <= 0x200A) || n == 0x2028 || n == 0x2029 || n == 0x202F || n == 0x205F || n == 0x3000
}

/// A run of `m` characters without white space that ends the text or is
/// followed by white space is the first word's length.
pub proof fn lemma_word_len_run(s: Seq<char>, m: int)
    requires
        0 <= m <= s.len(),
        forall|k: int| 0 <= k < m ==> !is_space(#[trigger] s[k]),
        m == s.len() || is_space(s[m]),
    ensures
        word_len(s) == m,
    decreases m,
{
    if m > 0 {
        let t = s.drop_first();
        assert forall|k: int| 0 <= k < m - 1 implies !is_space(#[trigger] t[k]) by {
            assert(t[k] == s[k + 1]);
        }
        lemma_word_len_run(t, m - 1);
    }
}

/// The word that starts at `start` and runs up to `end`, where the text ends
/// or white space follows, is the first word of what starts at `start`.
pub proof fn lemma_word_cut(s: Seq<char>, start: int, end: int)
    requires
        0 <= start < end <= s.len(),
        forall|k: int| start <= k < end ==> !is_space(#[trigger] s[k]),
        end == s.len() || is_space(s[end]),
    ensures
        words(s.skip(start)) == seq![s.subrange(start, end)] + words(s.skip(end)),
{
    let t = s.skip(start);
    assert forall|k: int| 0 <= k < end - start implies !is_space(#[trigger] t[k]) by {
        assert(t[k] == s[start + k]);
    }
    lemma_word_len_run(t, end - start);
    assert(t.take(end - start) == s.subrange(start, end));
    assert(t.skip(end - start) == s.skip(end));
}

/// Cuts a text at runs of white space; empty fragments are left out and the
/// words keep their order.
pub fn split_words(text: &str) -> (out: Vec<String>)
    ensures
        views(out@) == words(text@),
{
    let mut out: Vec<String> = Vec::new();
    let mut current: String = String::new();
    let ghost s = text@;
    let ghost mut start: int = 0;
    proof {
        assert(views(out@) =~= Seq::empty());
        assert(s.skip(0) =~= s);
    }
    for c in it: text.chars()
        invariant
            it.seq() == s,
            0 <= start <= it.index() <= s.len(),
            forall|k: int| start <= k < it.index() ==> !is_space(#[trigger] s[k]),
            current@ == s.subrange(start, it.index() as int),
            words(s) == views(out@) + words(s.skip(start)),
    {
        let ghost i = it.index() as int;
        assert(c == s[i]);
        if is_whitespace(c) {
            if !current.as_str().is_empty() {
                proof {
                    lemma_word_cut(s, start, i);
                }
                let ghost before = views(out@);
                out.push(current);
                current = String::new();
                assert(views(out@) == before.push(s.subrange(start, i)));
            } else {
                assert(start == i);
            }
            proof {
                let t = s.skip(i);
                assert(t.drop_first() == s.skip(i + 1));
                start = i + 1;
            }
        } else {
            current.push(c);
            assert(current@ == s.subrange(start, i + 1));
        }
    }
    if !current.as_str().is_empty() {
        proof {
            lemma_word_cut(s, start, s.len() as int);
        }
        let ghost before = views(out@);
        out.push(current);
        assert(views(out@) == before.push(s.subrange(start, s.len() as int)));
    } else {
        assert(s.skip(start).len() == 0);
    }
    out
}

/// The tokens of a text, in the order in which they stand in it.
pub fn tokenize(text: &str) -> (out: Vec<String>)
    ensures
        views(out@) == tokens_of(text@),
        forall|i: int| 0 <= i < out.len() ==> is_token(#[trigger] out[i]@),
{
    proof {
        reveal_strlit(" ");
        assert(" "@ =~= seq![' ']);
    }
    let clean = replace_separators("[^a-zA-Z0-9\\s'\\)]", text, " ");
    let out = split_words(clean.as_str());
    proof {
        assert forall|k: int| 0 <= k < clean@.len() implies survives(#[trigger] clean@[k]) by {
            assert(clean@[k] == blanked(text@[k]));
            assert(survives(' '));
        }
        lemma_words_are_tokens(clean@);
        assert forall|i: int| 0 <= i < out.len() implies is_token(#[trigger] out[i]@) by {
            assert(views(out@)[i] == out[i]@);
        }
    }
    out
}

/// The words with one space between each two.
pub open spec fn joined(tokens: Seq<Seq<char>>) -> Seq<char>
    decreases tokens.len(),
{
    if tokens.len() == 0 {
        Seq::empty()
    } else if tokens.len() == 1 {
        tokens[0]
    } else {
        tokens[0] + seq![' '] + joined(tokens.drop_first())
    }
}

/// A token: not empty, and made of surviving characters other than white
/// space.
pub open spec fn is_token(w: Seq<char>) -> bool {
    &&& w.len() > 0
    &&& forall|k: int| 0 <= k < w.len() ==> survives(#[trigger] w[k]) && !is_space(w[k])
}

/// The first word of a text ends within the text, holds no white space, and
/// is followed by white space or the end; it is empty only where the text is
/// empty or starts with white space.
pub proof fn lemma_word_len(s: Seq<char>)
    ensures
        word_len(s) <= s.len(),
        forall|k: int| 0 <= k < word_len(s) ==> !is_space(#[trigger] s[k]),
        word_len(s) == s.len() || is_space(s[word_len(s) as int]),
        s.len() > 0 && !is_space(s[0]) ==> word_len(s) > 0,
    decreases s.len(),
{
    if s.len() > 0 && !is_space(s[0]) {
        let t = s.drop_first();
        lemma_word_len(t);
        assert forall|k: int| 0 <= k < word_len(s) implies !is_space(#[trigger] s[k]) by {
            if k > 0 {
                assert(s[k] == t[k - 1]);
            }
        }
        if word_len(s) != s.len() {
            assert(s[word_len(s) as int] == t[word_len(t) as int]);
        }
    }
}

/// Every word of a text made of surviving characters is a token.
pub proof fn lemma_words_are_tokens(s: Seq<char>)
    requires
        forall|k: int| 0 <= k < s.len() ==> survives(#[trigger] s[k]),
    ensures
        forall|i: int| 0 <= i < words(s).len() ==> is_token(#[trigger] words(s)[i]),
    decreases s.len(),
{
    if s.len() > 0 {
        if is_space(s[0]) {
            let t = s.drop_first();
            assert forall|k: int| 0 <= k < t.len() implies survives(#[trigger] t[k]) by {
                assert(t[k] == s[k + 1]);
            }
            lemma_words_are_tokens(t);
            assert(words(s) == words(t));
        } else {
            lemma_word_len(s);
            let n = word_len(s) as int;
            let w = s.take(n);
            let t = s.skip(n);
            assert forall|k: int| 0 <= k < t.len() implies survives(#[trigger] t[k]) by {
                assert(t[k] == s[k + n]);
            }
            lemma_words_are_tokens(t);
            assert(is_token(w)) by {
                assert forall|k: int| 0 <= k < w.len() implies survives(#[trigger] w[k])
                    && !is_space(w[k]) by {
                    assert(w[k] == s[k]);
                }
            }
            assert(words(s) == seq![w] + words(t));
            assert forall|i: int| 0 <= i < words(s).len() implies is_token(
                #[trigger] words(s)[i],
            ) by {
                if i > 0 {
                    assert(words(s)[i] == words(t)[i - 1]);
                }
            }
        }
    }
}

/// Tokens joined by single spaces are made of surviving characters, and
/// cutting the joined text gives the tokens back.
pub proof fn lemma_words_of_joined(tokens: Seq<Seq<char>>)
    requires
        forall|i: int| 0 <= i < tokens.len() ==> is_token(#[trigger] tokens[i]),
    ensures
        forall|k: int| 0 <= k < joined(tokens).len() ==> survives(#[trigger] joined(tokens)[k]),
        words(joined(tokens)) == tokens,
    decreases tokens.len(),
{
    if tokens.len() == 0 {
    } else if tokens.len() == 1 {
        let w = tokens[0];
        lemma_word_len_run(w, w.len() as int);
        assert(w.take(w.len() as int) =~= w);
        assert(w.skip(w.len() as int) =~= Seq::empty());
        assert(!is_space(w[0]));
        assert(words(w.skip(w.len() as int)) =~= Seq::empty());
        assert(words(w) =~= seq![w]);
        assert(words(w) =~= tokens);
    } else {
        let w = tokens[0];
        let others = tokens.drop_first();
        let rest = joined(others);
        let s = joined(tokens);
        let n = w.len() as int;
        assert forall|i: int| 0 <= i < others.len() implies is_token(#[trigger] others[i]) by {
            assert(others[i] == tokens[i + 1]);
        }
        lemma_words_of_joined(others);
        assert(s =~= w + seq![' '] + rest);
        assert forall|k: int| 0 <= k < s.len() implies survives(#[trigger] s[k]) by {
            if k < n {
                assert(s[k] == w[k]);
            } else if k > n {
                assert(s[k] == rest[k - n - 1]);
            }
        }
        assert forall|k: int| 0 <= k < n implies !is_space(#[trigger] s[k]) by {
            assert(s[k] == w[k]);
        }
        assert(s[n] == ' ');
        lemma_word_len_run(s, n);
        assert(s[0] == w[0]);
        assert(s.take(n) =~= w);
        let t = s.skip(n);
        assert(t[0] == ' ');
        assert(t.drop_first() =~= rest);
        assert(words(t) == words(rest));
        assert(words(s) =~= seq![w] + others);
        assert(seq![w] + others =~= tokens);
    }
}

/// Tokenizing the tokens of a text, joined by single spaces, gives the same
/// tokens again.
pub proof fn lemma_tokenize_idempotent(text: Seq<char>)
    ensures
        tokens_of(joined(tokens_of(text))) == tokens_of(text),
{
    let clean = normalized(text);
    assert forall|k: int| 0 <= k < clean.len() implies survives(#[trigger] clean[k]) by {
        assert(clean[k] == blanked(text[k]));
        assert(survives(' '));
    }
    lemma_words_are_tokens(clean);
    let tokens = words(clean);
    lemma_words_of_joined(tokens);
    assert(normalized(joined(tokens)) =~= joined(tokens));
}

} // verus!
