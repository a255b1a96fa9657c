//! Token classification of a line of code for styling: string literals,
//! a small keyword set, and everything else.

use vstd::prelude::*;
use vstd::string::StrSliceExecFns;
use vstd::string::StringExecFns;

verus! {

/// Whether the character counts as alphanumeric for word building.
pub uninterp spec fn alphanumeric(c: char) -> bool;

/// Relies on char::is_alphanumeric: membership in the Unicode Alphabetic
/// or Number categories, a function of the character alone.
#[verifier::external_body]
fn is_alphanumeric_char(c: char) -> (r: bool)
    ensures
        r == alphanumeric(c),
{
    c.is_alphanumeric()
}

/// A word is built from alphanumeric characters and underscores.
pub open spec fn is_word_char(c: char) -> bool {
    alphanumeric(c) || c == '_'
}

/// A string literal is delimited by double or single quotes.
pub open spec fn is_quote(c: char) -> bool {
    c == '"' || c == '\''
}

/// The styling class of a completed word: the keyword class for the four
/// keywords, none otherwise.
pub open spec fn keyword_class(w: Seq<char>) -> Option<Seq<char>> {
    if w == "import"@ || w == "from"@ || w == "def"@ || w == "return"@ {
        Some("hl-keyword"@)
    } else {
        None
    }
}

/// Index of the first occurrence of `delim` at or after `i`, or the text
/// length if there is none.
pub open spec fn find_close(s: Seq<char>, i: int, delim: char) -> int
    decreases s.len() - i when 0 <= i <= s.len()
{
    if i >= s.len() {
        s.len() as int
    } else if s[i] == delim {
        i
    } else {
        find_close(s, i + 1, delim)
    }
}

/// Index of the first non-word character at or after `i`, or the text
/// length if words run to the end.
pub open spec fn word_end(s: Seq<char>, i: int) -> int
    decreases s.len() - i when 0 <= i <= s.len()
{
    if i >= s.len() {
        s.len() as int
    } else if !is_word_char(s[i]) {
        i
    } else {
        word_end(s, i + 1)
    }
}

proof fn lemma_find_close(s: Seq<char>, i: int, delim: char)
    requires
        0 <= i <= s.len(),
    ensures
        i <= find_close(s, i, delim) <= s.len(),
        find_close(s, i, delim) < s.len() ==> s[find_close(s, i, delim)] == delim,
        forall|k: int| i <= k < find_close(s, i, delim) ==> s[k] != delim,
    decreases s.len() - i,
{
    if i < s.len() && s[i] != delim {
        lemma_find_close(s, i + 1, delim);
    }
}

proof fn lemma_word_end(s: Seq<char>, i: int)
    requires
        0 <= i <= s.len(),
    ensures
        i <= word_end(s, i) <= s.len(),
        word_end(s, i) < s.len() ==> !is_word_char(s[word_end(s, i)]),
        forall|k: int| i <= k < word_end(s, i) ==> is_word_char(s[k]),
    decreases s.len() - i,
{
    if i < s.len() && is_word_char(s[i]) {
        lemma_word_end(s, i + 1);
    }
}

/// The token stream of the text from `i` on: a quote opens a string token
/// running through its closing delimiter; a word character opens a word
/// token classified against the keyword set; any other character stands
/// alone unclassified. An unterminated string becomes one final token,
/// classified like a word.
pub open spec fn spec_tokens(s: Seq<char>, i: int) -> Seq<(Seq<char>, Option<Seq<char>>)>
    decreases s.len() - i when 0 <= i <= s.len() via spec_tokens_decreases
{
    if i >= s.len() {
        Seq::empty()
    } else if is_quote(s[i]) {
        let j = find_close(s, i + 1, s[i]);
        if j < s.len() {
            seq![(s.subrange(i, j + 1), Some("hl-string"@))] + spec_tokens(s, j + 1)
        } else {
            seq![
                (
                    s.subrange(i, s.len() as int),
                    keyword_class(s.subrange(i, s.len() as int)),
                ),
            ]
        }
    } else if is_word_char(s[i]) {
        let j = word_end(s, i + 1);
        seq![(s.subrange(i, j), keyword_class(s.subrange(i, j)))] + spec_tokens(s, j)
    } else {
        seq![(s.subrange(i, i + 1), None)] + spec_tokens(s, i + 1)
    }
}

#[via_fn]
proof fn spec_tokens_decreases(s: Seq<char>, i: int) {
    if 0 <= i < s.len() {
        if is_quote(s[i]) {
            lemma_find_close(s, i + 1, s[i]);
        } else if is_word_char(s[i]) {
            lemma_word_end(s, i + 1);
        }
    }
}

/// The token texts, concatenated in order.
pub open spec fn concat_token_texts(toks: Seq<(Seq<char>, Option<Seq<char>>)>) -> Seq<char>
    decreases toks.len(),
{
    if toks.len() == 0 {
        Seq::empty()
    } else {
        toks.first().0 + concat_token_texts(toks.drop_first())
    }
}

/// Partition law of the tokenizer: concatenating the token texts in order
/// reproduces the text from `i` on exactly.
pub proof fn lemma_tokens_partition(s: Seq<char>, i: int)
    requires
        0 <= i <= s.len(),
    ensures
        concat_token_texts(spec_tokens(s, i)) == s.subrange(i, s.len() as int),
    decreases s.len() - i,
{
    if i >= s.len() {
        assert(concat_token_texts(spec_tokens(s, i)) =~= s.subrange(i, s.len() as int));
    } else if is_quote(s[i]) {
        let j = find_close(s, i + 1, s[i]);
        lemma_find_close(s, i + 1, s[i]);
        if j < s.len() {
            lemma_tokens_partition(s, j + 1);
            let head = (s.subrange(i, j + 1), Some("hl-string"@));
            let toks = seq![head] + spec_tokens(s, j + 1);
            assert(toks.first() == head);
            assert(toks.drop_first() =~= spec_tokens(s, j + 1));
            assert(concat_token_texts(toks) =~= s.subrange(i, s.len() as int));
        } else {
            let tail = s.subrange(i, s.len() as int);
            let toks = seq![(tail, keyword_class(tail))];
            assert(toks.len() == 1);
            assert(toks.first() == (tail, keyword_class(tail)));
            assert(toks.drop_first() =~= Seq::<(Seq<char>, Option<Seq<char>>)>::empty());
            assert(concat_token_texts(toks.drop_first()) == Seq::<char>::empty());
            assert(concat_token_texts(toks) == tail + Seq::<char>::empty());
            assert(concat_token_texts(toks) =~= tail);
        }
    } else if is_word_char(s[i]) {
        let j = word_end(s, i + 1);
        lemma_word_end(s, i + 1);
        lemma_tokens_partition(s, j);
        let head = (s.subrange(i, j), keyword_class(s.subrange(i, j)));
        let toks = seq![head] + spec_tokens(s, j);
        assert(toks.first() == head);
        assert(toks.drop_first() =~= spec_tokens(s, j));
        assert(concat_token_texts(toks) =~= s.subrange(i, s.len() as int));
    } else {
        lemma_tokens_partition(s, i + 1);
        let head = (s.subrange(i, i + 1), None::<Seq<char>>);
        let toks = seq![head] + spec_tokens(s, i + 1);
        assert(toks.first() == head);
        assert(toks.drop_first() =~= spec_tokens(s, i + 1));
        assert(concat_token_texts(toks) =~= s.subrange(i, s.len() as int));
    }
}

/// The observable content of a token vector.
pub open spec fn tokens_view(v: Seq<(String, Option<&'static str>)>) -> Seq<
    (Seq<char>, Option<Seq<char>>),
> {
    Seq::new(
        v.len(),
        |k: int|
            (
                v[k].0@,
                match v[k].1 {
                    Some(c) => Some(c@),
                    None => None,
                },
            ),
    )
}

fn is_word_char_at(c: char) -> (r: bool)
    ensures
        r == is_word_char(c),
{
    if c == '_' {
        true
    } else {
        is_alphanumeric_char(c)
    }
}

/// Character-wise string comparison.
fn str_eq(a: &str, b: &str) -> (r: bool)
    ensures
        r == (a@ == b@),
{
    let la = a.unicode_len();
    let lb = b.unicode_len();
    if la != lb {
        return false;
    }
    let mut i: usize = 0;
    while i < la
        invariant
            la == a@.len(),
            la == b@.len(),
            i <= la,
            forall|t: int| 0 <= t < i ==> a@[t] == b@[t],
        decreases la - i,
    {
        if a.get_char(i) != b.get_char(i) {
            return false;
        }
        i = i + 1;
    }
    proof {
        assert(a@ =~= b@);
    }
    true
}

fn keyword_class_of(w: &str) -> (r: Option<&'static str>)
    ensures
        (match r {
            Some(c) => Some(c@),
            None => None,
        }) == keyword_class(w@),
{
    if str_eq(w, "import") || str_eq(w, "from") || str_eq(w, "def") || str_eq(w, "return") {
        Some("hl-keyword")
    } else {
        None
    }
}

fn find_close_from(text: &str, from: usize, delim: char) -> (r: usize)
    requires
        from as int <= text@.len(),
    ensures
        r as int == find_close(text@, from as int, delim),
        from <= r,
        r as int <= text@.len(),
{
    let ghost s = text@;
    let len = text.unicode_len();
    let mut i = from;
    while i < len
        invariant
            s == text@,
            len == s.len(),
            from <= i <= len,
            find_close(s, from as int, delim) == find_close(s, i as int, delim),
        decreases len - i,
    {
        if text.get_char(i) == delim {
            return i;
        }
        i = i + 1;
    }
    i
}

fn word_end_from(text: &str, from: usize) -> (r: usize)
    requires
        from as int <= text@.len(),
    ensures
        r as int == word_end(text@, from as int),
        from <= r,
        r as int <= text@.len(),
{
    let ghost s = text@;
    let len = text.unicode_len();
    let mut i = from;
    while i < len
        invariant
            s == text@,
            len == s.len(),
            from <= i <= len,
            word_end(s, from as int) == word_end(s, i as int),
        decreases len - i,
    {
        if !is_word_char_at(text.get_char(i)) {
            return i;
        }
        i = i + 1;
    }
    i
}

/// Splits a text into styling tokens: string literals under the string
/// class, the keywords under the keyword class, other words and single
/// characters unclassified. Concatenating the token texts in order gives
/// the input back.
pub fn highlight_tokens(text: &str) -> (r: Vec<(String, Option<&'static str>)>)
    ensures
        tokens_view(r@) == spec_tokens(text@, 0),
{
    let ghost s = text@;
    let len = text.unicode_len();
    let mut out: Vec<(String, Option<&'static str>)> = Vec::new();
    let mut i: usize = 0;
    proof {
        assert(tokens_view(out@) + spec_tokens(s, 0) =~= spec_tokens(s, 0));
    }
    while i < len
        invariant
            s == text@,
            len == s.len(),
            i <= len,
            tokens_view(out@) + spec_tokens(s, i as int) == spec_tokens(s, 0),
        decreases len - i,
    {
        let ghost old_i = i as int;
        let ghost old_toks = tokens_view(out@);
        let c = text.get_char(i);
        if c == '"' || c == '\'' {
            let j = find_close_from(text, i + 1, c);
            if j < len {
                let tok = String::from_str(text.substring_char(i, j + 1));
                out.push((tok, Some("hl-string")));
                proof {
                    assert(tokens_view(out@) =~= old_toks.push(
                        (s.subrange(old_i, j + 1), Some("hl-string"@)),
                    ));
                }
                i = j + 1;
            } else {
                let tail = text.substring_char(i, len);
                let cls = keyword_class_of(tail);
                let tok = String::from_str(tail);
                out.push((tok, cls));
                proof {
                    assert(tokens_view(out@) =~= old_toks.push(
                        (
                            s.subrange(old_i, s.len() as int),
                            keyword_class(s.subrange(old_i, s.len() as int)),
                        ),
                    ));
                }
                i = len;
            }
        } else if is_word_char_at(c) {
            let j = word_end_from(text, i + 1);
            let word = text.substring_char(i, j);
            let cls = keyword_class_of(word);
            let tok = String::from_str(word);
            out.push((tok, cls));
            proof {
                assert(tokens_view(out@) =~= old_toks.push(
                    (s.subrange(old_i, j as int), keyword_class(s.subrange(old_i, j as int))),
                ));
            }
            i = j;
        } else {
            let tok = String::from_str(text.substring_char(i, i + 1));
            out.push((tok, None));
            proof {
                assert(tokens_view(out@) =~= old_toks.push(
                    (s.subrange(old_i, old_i + 1), None),
                ));
            }
            i = i + 1;
        }
        proof {
            assert(spec_tokens(s, old_i) == seq![tokens_view(out@).last()] + spec_tokens(
                s,
                i as int,
            ));
            assert(old_toks + spec_tokens(s, old_i) == spec_tokens(s, 0));
            assert(old_toks + (seq![tokens_view(out@).last()] + spec_tokens(s, i as int))
                =~= tokens_view(out@) + spec_tokens(s, i as int));
        }
    }
    proof {
        assert(tokens_view(out@) + spec_tokens(s, len as int) =~= tokens_view(out@));
    }
    out
}

} // verus!
