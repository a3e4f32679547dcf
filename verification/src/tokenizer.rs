//! Splitting text into word tokens.
//!
//! A token is a maximal run of word characters (letters and digits);
//! everything else separates tokens and is dropped. The tokenizer keeps the
//! case of its input; [`normalized_tokens`] folds ASCII letters to upper case
//! afterwards, the same way for documents and for queries.

use vstd::prelude::*;

verus! {

/// The first character after the ASCII range.
pub const ASCII_END: char = '\u{80}';

/// Whether `c` is a letter or a digit in Unicode's sense: what
/// `char::is_alphanumeric` answers.
pub uninterp spec fn unicode_alphanumeric(c: char) -> bool;

/// Whether `c` is an ASCII letter or digit.
pub open spec fn is_ascii_word_char(c: char) -> bool {
    ('0' <= c && c <= '9') || ('A' <= c && c <= 'Z') || ('a' <= c && c <= 'z')
}

/// Whether `c` belongs to a token: a letter or a digit.
pub open spec fn is_word_char(c: char) -> bool {
    if c < ASCII_END {
        is_ascii_word_char(c)
    } else {
        unicode_alphanumeric(c)
    }
}

/// The tokens of `text`, in order. Read from the right end: a separator adds
/// nothing; a word character that follows a word character extends the last
/// token; any other word character starts a new token.
pub open spec fn tokens(text: Seq<char>) -> Seq<Seq<char>>
    decreases text.len(),
{
    if text.len() == 0 {
        Seq::empty()
    } else {
        let before = text.drop_last();
        let c = text.last();
        if !is_word_char(c) {
            tokens(before)
        } else if before.len() > 0 && is_word_char(before.last()) {
            let found = tokens(before);
            found.drop_last().push(found.last().push(c))
        } else {
            tokens(before).push(seq![c])
        }
    }
}

/// The upper-case form of an ASCII lower-case letter; any other character
/// unchanged.
pub open spec fn upper_char(c: char) -> char {
    if 'a' <= c && c <= 'z' {
        ((c as u8) - 32) as char
    } else {
        c
    }
}

/// `token` with its ASCII letters in upper case.
pub open spec fn uppercase(token: Seq<char>) -> Seq<char> {
    token.map_values(|c: char| upper_char(c))
}

/// The normalized tokens of `text`: its tokens, each in upper case.
pub open spec fn terms(text: Seq<char>) -> Seq<Seq<char>> {
    tokens(text).map_values(|token: Seq<char>| uppercase(token))
}

/// The character sequences that a list of strings holds.
pub open spec fn texts(strings: Seq<String>) -> Seq<Seq<char>> {
    strings.map_values(|s: String| s@)
}

/// Whether every character of `token` is a word character.
pub open spec fn all_word_chars(token: Seq<char>) -> bool {
    forall|i: int| 0 <= i < token.len() ==> is_word_char(#[trigger] token[i])
}

/// Text that ends in a word character has a last token, and that token ends
/// in the same character.
proof fn lemma_last_token(text: Seq<char>)
    requires
        text.len() > 0,
        is_word_char(text.last()),
    ensures
        tokens(text).len() > 0,
        tokens(text).last().len() > 0,
        tokens(text).last().last() == text.last(),
    decreases text.len(),
{
    let before = text.drop_last();
    if before.len() > 0 && is_word_char(before.last()) {
        lemma_last_token(before);
    }
}

/// Every token is a non-empty run of word characters.
pub proof fn lemma_tokens_are_words(text: Seq<char>)
    ensures
        forall|i: int|
            0 <= i < tokens(text).len() ==> (#[trigger] tokens(text)[i]).len() > 0
                && all_word_chars(tokens(text)[i]),
    decreases text.len(),
{
    if text.len() > 0 {
        let before = text.drop_last();
        let found = tokens(before);
        lemma_tokens_are_words(before);
        if is_word_char(text.last()) && before.len() > 0 && is_word_char(before.last()) {
            lemma_last_token(before);
            let grown = found.last().push(text.last());
            assert(all_word_chars(grown)) by {
                assert(all_word_chars(found[found.len() - 1]));
                assert forall|k: int| 0 <= k < grown.len() implies is_word_char(
                    #[trigger] grown[k],
                ) by {
                    if k < found.last().len() {
                        assert(grown[k] == found.last()[k]);
                    }
                }
            }
            assert forall|i: int| 0 <= i < tokens(text).len() implies (#[trigger] tokens(
                text,
            )[i]).len() > 0 && all_word_chars(tokens(text)[i]) by {
                if i < found.len() - 1 {
                    assert(tokens(text)[i] == found[i]);
                }
            }
        } else if is_word_char(text.last()) {
            let single = seq![text.last()];
            assert(all_word_chars(single));
            assert forall|i: int| 0 <= i < tokens(text).len() implies (#[trigger] tokens(
                text,
            )[i]).len() > 0 && all_word_chars(tokens(text)[i]) by {
                if i < found.len() {
                    assert(tokens(text)[i] == found[i]);
                }
            }
        }
    }
}

/// Text without a word character has no tokens.
pub proof fn lemma_no_words_no_tokens(text: Seq<char>)
    requires
        forall|i: int| 0 <= i < text.len() ==> !is_word_char(#[trigger] text[i]),
    ensures
        tokens(text).len() == 0,
    decreases text.len(),
{
    if text.len() > 0 {
        lemma_no_words_no_tokens(text.drop_last());
    }
}

/// A non-empty run of word characters is one token.
pub proof fn lemma_tokens_of_word(word: Seq<char>)
    requires
        word.len() > 0,
        all_word_chars(word),
    ensures
        tokens(word) == seq![word],
    decreases word.len(),
{
    let before = word.drop_last();
    assert(is_word_char(word[word.len() - 1]));
    if before.len() > 0 {
        assert forall|i: int| 0 <= i < before.len() implies is_word_char(#[trigger] before[i]) by {
            assert(before[i] == word[i]);
        }
        lemma_tokens_of_word(before);
        assert(before.last() == word[word.len() - 2]);
        assert(is_word_char(word[word.len() - 2]));
        assert(before.push(word.last()) == word);
        assert(seq![before].last() == before);
        assert(seq![before].drop_last().push(before.push(word.last())) == seq![word]);
    } else {
        assert(tokens(before) == Seq::<Seq<char>>::empty());
        assert(seq![word.last()] == word);
        assert(Seq::<Seq<char>>::empty().push(word) == seq![word]);
    }
}

/// A separator splits the text: the tokens of two texts joined by a character
/// that is no word character are the tokens of the first followed by the
/// tokens of the second. With `lemma_tokens_of_word` this says that the
/// tokens are the maximal runs of word characters, in order.
pub proof fn lemma_tokens_split_at_separator(left: Seq<char>, separator: char, right: Seq<char>)
    requires
        !is_word_char(separator),
    ensures
        tokens(left.push(separator) + right) == tokens(left) + tokens(right),
    decreases right.len(),
{
    let head = left.push(separator);
    let text = head + right;
    if right.len() == 0 {
        assert(text == head);
        assert(head.drop_last() == left);
        assert(tokens(left) + tokens(right) == tokens(left));
    } else {
        let shorter = right.drop_last();
        let c = right.last();
        let before = head + shorter;
        assert(text.drop_last() == before);
        assert(text.last() == c);
        lemma_tokens_split_at_separator(left, separator, shorter);
        if !is_word_char(c) {
        } else if shorter.len() > 0 && is_word_char(shorter.last()) {
            assert(before.last() == shorter.last());
            lemma_last_token(shorter);
            let found = tokens(shorter);
            let joined = tokens(left) + found;
            assert(joined.last() == found.last());
            assert(joined.drop_last() == tokens(left) + found.drop_last());
            assert(joined.drop_last().push(joined.last().push(c)) == tokens(left)
                + found.drop_last().push(found.last().push(c)));
        } else {
            if shorter.len() > 0 {
                assert(before.last() == shorter.last());
            } else {
                assert(before == head);
                assert(before.last() == separator);
            }
            assert((tokens(left) + tokens(shorter)).push(seq![c]) == tokens(left) + tokens(
                shorter,
            ).push(seq![c]));
        }
    }
}

/// `char::is_alphanumeric` of the standard library, which decides by the
/// Unicode tables whether a character is alphabetic or numeric. The answer
/// depends on the character alone.
#[verifier::external_body]
fn is_alphanumeric(c: char) -> (b: bool)
    ensures
        b == unicode_alphanumeric(c),
{
    c.is_alphanumeric()
}

/// `String::push` of the standard library, which appends one character to
/// the end of the string.
#[verifier::external_body]
fn push_char(s: &mut String, c: char)
    ensures
        final(s)@ == old(s)@.push(c),
{
    s.push(c)
}

/// Decides whether `c` belongs to a token.
pub fn word_char(c: char) -> (b: bool)
    ensures
        b == is_word_char(c),
{
    if c < ASCII_END {
        (c >= '0' && c <= '9') || (c >= 'A' && c <= 'Z') || (c >= 'a' && c <= 'z')
    } else {
        is_alphanumeric(c)
    }
}

/// Splits `text` into its tokens, keeping their case.
pub fn tokenize(text: &str) -> (out: Vec<String>)
    ensures
        texts(out@) == tokens(text@),
        forall|i: int|
            0 <= i < out.len() ==> (#[trigger] out[i])@.len() > 0 && all_word_chars(out[i]@),
        (forall|i: int| 0 <= i < text@.len() ==> !is_word_char(#[trigger] text@[i]))
            ==> out.len() == 0,
{
    let mut out: Vec<String> = Vec::new();
    let mut run: String = String::new();
    let mut in_run: bool = false;
    for c in it: text.chars()
        invariant
            it.seq() == text@,
            in_run <==> (it.index() > 0 && is_word_char(text@[it.index() - 1])),
            !in_run ==> run@.len() == 0 && tokens(text@.take(it.index() as int)) == texts(out@),
            in_run ==> tokens(text@.take(it.index() as int)) == texts(out@).push(run@),
    {
        let ghost seen = text@.take(it.index() as int);
        let ghost next = text@.take(it.index() + 1);
        proof {
            assert(next.drop_last() == seen);
            assert(next.last() == c);
            if it.index() > 0 {
                assert(seen.last() == text@[it.index() - 1]);
            }
        }
        if word_char(c) {
            let ghost grown = run@.push(c);
            proof {
                if in_run {
                    assert(texts(out@).push(run@).drop_last() == texts(out@));
                    assert(texts(out@).push(run@).last() == run@);
                    assert(tokens(next) == texts(out@).push(grown));
                } else {
                    assert(grown == seq![c]);
                    assert(tokens(next) == texts(out@).push(grown));
                }
            }
            push_char(&mut run, c);
            in_run = true;
        } else {
            if in_run {
                proof {
                    assert(texts(out@.push(run)) == texts(out@).push(run@));
                }
                out.push(run);
                run = String::new();
            }
            in_run = false;
        }
    }
    proof {
        assert(text@.take(text@.len() as int) == text@);
    }
    if in_run {
        proof {
            assert(texts(out@.push(run)) == texts(out@).push(run@));
        }
        out.push(run);
    }
    proof {
        lemma_tokens_are_words(text@);
        if forall|i: int| 0 <= i < text@.len() ==> !is_word_char(#[trigger] text@[i]) {
            lemma_no_words_no_tokens(text@);
        }
        assert forall|i: int| 0 <= i < out.len() implies (#[trigger] out[i])@.len() > 0
            && all_word_chars(out[i]@) by {
            assert(texts(out@)[i] == out[i]@);
        }
    }
    out
}

/// Folds one character to upper case.
pub fn to_upper_char(c: char) -> (r: char)
    ensures
        r == upper_char(c),
{
    if c >= 'a' && c <= 'z' {
        ((c as u8) - 32) as char
    } else {
        c
    }
}

/// Returns `token` with its ASCII letters in upper case.
pub fn to_uppercase(token: &str) -> (out: String)
    ensures
        out@ == uppercase(token@),
{
    let mut out: String = String::new();
    for c in it: token.chars()
        invariant
            it.seq() == token@,
            out@ == uppercase(token@.take(it.index() as int)),
    {
        proof {
            assert(token@.take(it.index() + 1) == token@.take(it.index() as int).push(c));
        }
        push_char(&mut out, to_upper_char(c));
    }
    proof {
        assert(token@.take(token@.len() as int) == token@);
    }
    out
}

/// Splits `text` into its normalized tokens.
pub fn normalized_tokens(text: &str) -> (out: Vec<String>)
    ensures
        texts(out@) == terms(text@),
{
    let raw = tokenize(text);
    let mut out: Vec<String> = Vec::new();
    let mut i: usize = 0;
    while i < raw.len()
        invariant
            i <= raw.len(),
            texts(raw@) == tokens(text@),
            out.len() == i,
            forall|k: int| 0 <= k < i ==> (#[trigger] out[k])@ == uppercase(raw[k]@),
        decreases raw.len() - i,
    {
        let folded = to_uppercase(raw[i].as_str());
        out.push(folded);
        i = i + 1;
    }
    proof {
        assert forall|k: int| 0 <= k < out.len() implies texts(out@)[k] == terms(text@)[k] by {
            assert(texts(raw@)[k] == raw[k]@);
        }
        assert(texts(out@) =~= terms(text@));
    }
    out
}

} // verus!
