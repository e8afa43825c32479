use vstd::prelude::*;

verus! {

/// Whether `c` separates words: the characters with the Unicode `White_Space`
/// property, the set `str::split_whitespace` splits on.
pub open spec fn is_space(c: char) -> bool {
    ||| c == ' '
    ||| c == '\t'
    ||| c == '\n'
    ||| c == '\r'
    ||| c == '\u{0b}'
    ||| c == '\u{0c}'
    ||| c == '\u{85}'
    ||| c == '\u{a0}'
    ||| c == '\u{1680}'
    ||| (0x2000 <= c as u32 && c as u32 <= 0x200a)
    ||| c == '\u{2028}'
    ||| c == '\u{2029}'
    ||| c == '\u{202f}'
    ||| c == '\u{205f}'
    ||| c == '\u{3000}'
}

/// Decide whether `c` separates words.
pub fn is_space_char(c: char) -> (r: bool)
    ensures
        r == is_space(c),
{
    c == ' ' || c == '\t' || c == '\n' || c == '\r' || c == '\u{0b}' || c == '\u{0c}'
        || c == '\u{85}' || c == '\u{a0}' || c == '\u{1680}'
        || (0x2000 <= c as u32 && c as u32 <= 0x200a) || c == '\u{2028}' || c == '\u{2029}'
        || c == '\u{202f}' || c == '\u{205f}' || c == '\u{3000}'
}

/// How many words start within the first `n` characters of `s`: a word starts
/// at a non-space character that sits at the front or right after a space.
pub open spec fn token_starts(s: Seq<char>, n: int) -> int
    decreases n,
{
    if n <= 0 {
        0
    } else {
        token_starts(s, n - 1) + if !is_space(s[n - 1]) && (n == 1 || is_space(s[n - 2])) {
            1int
        } else {
            0int
        }
    }
}

/// The number of whitespace-delimited words in `s`.
pub open spec fn token_count(s: Seq<char>) -> int {
    token_starts(s, s.len() as int)
}

/// The texts of a record joined into one string with a single space between
/// neighbours.
pub open spec fn join_texts(ts: Seq<Seq<char>>) -> Seq<char>
    decreases ts.len(),
{
    if ts.len() == 0 {
        Seq::empty()
    } else if ts.len() == 1 {
        ts[0]
    } else {
        join_texts(ts.drop_last()) + seq![' '] + ts.last()
    }
}

/// The word count of a record: the words of its texts joined with spaces.
pub open spec fn words_of(ts: Seq<Seq<char>>) -> int {
    token_count(join_texts(ts))
}

/// A word count is never negative.
pub proof fn lemma_token_starts_nonneg(s: Seq<char>, n: int)
    ensures
        token_starts(s, n) >= 0,
    decreases n,
{
    if n > 0 {
        lemma_token_starts_nonneg(s, n - 1);
    }
}

/// The word count of any sequence of texts is never negative.
pub proof fn lemma_words_of_nonneg(ts: Seq<Seq<char>>)
    ensures
        words_of(ts) >= 0,
{
    lemma_token_starts_nonneg(join_texts(ts), join_texts(ts).len() as int);
}

/// Count the whitespace-delimited words of one string.
pub fn count_tokens(s: &str) -> (n: usize)
    ensures
        n == token_count(s@),
{
    let len = s.unicode_len();
    let mut i: usize = 0;
    let mut count: usize = 0;
    let mut prev_space: bool = true;
    while i < len
        invariant
            i <= len,
            len == s@.len(),
            count <= i,
            count == token_starts(s@, i as int),
            prev_space == (i == 0 || is_space(s@[i as int - 1])),
        decreases len - i,
    {
        let c = s.get_char(i);
        let sp = is_space_char(c);
        if !sp && prev_space {
            count = count + 1;
        }
        prev_space = sp;
        i = i + 1;
    }
    count
}

/// Join the texts with a single space between neighbours.
pub fn join_with_spaces(texts: &Vec<String>) -> (r: String)
    ensures
        r@ == join_texts(texts.deep_view()),
{
    proof {
        reveal_strlit(" ");
    }
    let mut r = String::new();
    let mut j: usize = 0;
    while j < texts.len()
        invariant
            j <= texts.len(),
            texts.deep_view().len() == texts@.len(),
            r@ == join_texts(texts.deep_view().take(j as int)),
        decreases texts.len() - j,
    {
        let ghost ts = texts.deep_view();
        proof {
            reveal_strlit(" ");
            assert(ts[j as int] == texts@[j as int]@);
        }
        if j > 0 {
            r.append(" ");
        }
        r.append(texts[j].as_str());
        proof {
            let prefix = ts.take(j as int);
            let next = ts.take(j + 1);
            if j == 0 {
                assert(next.len() == 1);
                assert(next[0] == ts[0]);
                assert(r@ =~= ts[0]);
            } else {
                assert(next.drop_last() =~= prefix);
                assert(next.last() == ts[j as int]);
                assert(r@ =~= join_texts(prefix) + seq![' '] + ts[j as int]);
            }
        }
        j = j + 1;
    }
    proof {
        assert(texts.deep_view().take(texts@.len() as int) =~= texts.deep_view());
    }
    r
}

/// Count the words of a record's texts, joined as `words_of` says.
pub fn count_words(texts: &Vec<String>) -> (n: usize)
    ensures
        n == words_of(texts.deep_view()),
{
    let joined = join_with_spaces(texts);
    count_tokens(joined.as_str())
}

} // verus!
