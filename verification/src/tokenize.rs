//! Tokenizers: the whitespace word tokenizer and the lowercase
//! character-trigram tokenizer.
//!
//! A tokenizer turns a string into an ordered sequence of terms.  The
//! word tokenizer splits on runs of whitespace and preserves case and
//! punctuation.  The trigram tokenizer lowercases the string and
//! emits every window of three consecutive characters (Unicode scalar
//! values, not bytes); an input of fewer than three characters yields
//! the whole lowercased string as its single term.

use vstd::prelude::*;
use vstd::string::StrSliceExecFns;

verus! {

/// A whitespace character: the Unicode `White_Space` code points,
/// the characters the word tokenizer splits on.
pub open spec fn is_whitespace_char(c: char) -> bool {
    let u = c as u32;
    u == 0x09 || u == 0x0A || u == 0x0B || u == 0x0C || u == 0x0D || u == 0x20 || u == 0x85 || u
        == 0xA0 || u == 0x1680 || (0x2000 <= u && u <= 0x200A) || u == 0x2028 || u == 0x2029 || u
        == 0x202F || u == 0x205F || u == 0x3000
}

/// Decides [`is_whitespace_char`].
pub(crate) fn is_whitespace_char_exec(c: char) -> (r: bool)
    ensures
        r == is_whitespace_char(c),
{
    let u = c as u32;
    u == 0x09 || u == 0x0A || u == 0x0B || u == 0x0C || u == 0x0D || u == 0x20 || u == 0x85 || u
        == 0xA0 || u == 0x1680 || (0x2000 <= u && u <= 0x200A) || u == 0x2028 || u == 0x2029 || u
        == 0x202F || u == 0x205F || u == 0x3000
}

/// The length of the maximal leading run of non-whitespace characters.
pub open spec fn word_run_len(s: Seq<char>) -> nat
    decreases s.len(),
{
    if s.len() == 0 || is_whitespace_char(s[0]) {
        0
    } else {
        1 + word_run_len(s.drop_first())
    }
}

/// The leading run never reaches past the end of the string.
pub proof fn lemma_word_run_len_le(s: Seq<char>)
    ensures
        word_run_len(s) <= s.len(),
    decreases s.len(),
{
    if s.len() == 0 || is_whitespace_char(s[0]) {
    } else {
        lemma_word_run_len_le(s.drop_first());
    }
}

/// The word tokens of `s`: every maximal run of non-whitespace
/// characters, in order.
pub open spec fn word_tokens(s: Seq<char>) -> Seq<Seq<char>>
    decreases s.len(),
    via word_tokens_decreases_proof
{
    if s.len() == 0 {
        Seq::empty()
    } else if is_whitespace_char(s[0]) {
        word_tokens(s.drop_first())
    } else {
        seq![s.take(word_run_len(s) as int)] + word_tokens(s.skip(word_run_len(s) as int))
    }
}

#[via_fn]
proof fn word_tokens_decreases_proof(s: Seq<char>) {
    if s.len() != 0 && !is_whitespace_char(s[0]) {
        lemma_word_run_len_le(s);
        assert(word_run_len(s) >= 1);
    }
}

/// The leading run is determined by its boundary: `m` non-whitespace
/// characters followed by the end or a whitespace character.
proof fn lemma_word_run_len_of(t: Seq<char>, m: int)
    requires
        0 <= m <= t.len(),
        forall|k: int| 0 <= k < m ==> !is_whitespace_char(#[trigger] t[k]),
        m < t.len() ==> is_whitespace_char(t[m]),
    ensures
        word_run_len(t) == m,
    decreases m,
{
    if m == 0 {
    } else {
        assert(!is_whitespace_char(t[0]));
        let rest = t.drop_first();
        assert forall|k: int| 0 <= k < m - 1 implies !is_whitespace_char(#[trigger] rest[k]) by {
            assert(rest[k] == t[k + 1]);
        }
        assert(m - 1 < rest.len() ==> is_whitespace_char(rest[m - 1])) by {
            if m - 1 < rest.len() {
                assert(rest[m - 1] == t[m]);
            }
        }
        lemma_word_run_len_of(rest, m - 1);
    }
}

/// Splits `s` into its maximal runs of non-whitespace characters.
/// This is the word tokenizer: case and punctuation are preserved,
/// and an empty or all-whitespace input yields no tokens.
pub fn default_tokenize(s: &str) -> (r: Vec<String>)
    ensures
        r.deep_view() == word_tokens(s@),
{
    let n = s.unicode_len();
    let mut toks: Vec<String> = Vec::new();
    let mut i: usize = 0;
    proof {
        assert(s@.skip(0) =~= s@);
        assert(toks.deep_view() + word_tokens(s@) =~= word_tokens(s@));
    }
    while i < n
        invariant
            0 <= i <= n,
            n as nat == s@.len(),
            toks.deep_view() + word_tokens(s@.skip(i as int)) == word_tokens(s@),
        decreases n - i,
    {
        let c = s.get_char(i);
        if is_whitespace_char_exec(c) {
            proof {
                assert(s@.skip(i as int).drop_first() =~= s@.skip(i + 1));
            }
            i = i + 1;
        } else {
            let start = i;
            i = i + 1;
            while i < n && !is_whitespace_char_exec(s.get_char(i))
                invariant
                    start < i <= n,
                    n as nat == s@.len(),
                    forall|k: int|
                        start <= k < i ==> !is_whitespace_char(#[trigger] s@[k]),
                decreases n - i,
            {
                i = i + 1;
            }
            let w = s.substring_char(start, i).to_owned();
            let ghost dv0 = toks.deep_view();
            proof {
                let rem = s@.skip(start as int);
                assert forall|k: int| 0 <= k < i - start implies !is_whitespace_char(
                    #[trigger] rem[k],
                ) by {
                    assert(rem[k] == s@[start + k]);
                }
                assert(i - start < rem.len() ==> is_whitespace_char(rem[i - start])) by {
                    if i - start < rem.len() {
                        assert(rem[i - start] == s@[i as int]);
                    }
                }
                lemma_word_run_len_of(rem, i - start);
                assert(rem.take(i - start) =~= s@.subrange(start as int, i as int));
                assert(rem.skip(i - start) =~= s@.skip(i as int));
                assert(word_tokens(rem) == seq![s@.subrange(start as int, i as int)] + word_tokens(
                    s@.skip(i as int),
                ));
                assert(dv0.push(w@) + word_tokens(s@.skip(i as int)) =~= dv0 + word_tokens(rem));
            }
            toks.push(w);
            proof {
                assert(toks.deep_view() =~= dv0.push(w@));
            }
        }
    }
    proof {
        assert(s@.skip(n as int) =~= Seq::<char>::empty());
        assert(word_tokens(Seq::<char>::empty()) =~= Seq::<Seq<char>>::empty());
        assert(toks.deep_view() =~= toks.deep_view() + word_tokens(s@.skip(n as int)));
    }
    toks
}

/// What `str::to_lowercase` returns for a string with the characters
/// `s`: the Unicode lowercase mapping, a function of the characters
/// alone.
pub uninterp spec fn lower_of(s: Seq<char>) -> Seq<char>;

/// Relies on `str::to_lowercase`: returns the lowercase equivalent of
/// the string, determined by its characters alone.
#[verifier::external_body]
fn lowercase(s: &str) -> (r: String)
    ensures
        r@ == lower_of(s@),
{
    s.to_lowercase()
}

/// Every window of three consecutive characters of `t`; fewer than
/// three characters yield no window.
pub open spec fn char_windows(t: Seq<char>) -> Seq<Seq<char>> {
    if t.len() < 3 {
        Seq::empty()
    } else {
        Seq::new((t.len() - 2) as nat, |i: int| t.subrange(i, i + 3))
    }
}

/// The trigram tokens of `s`: every three-character window of the
/// lowercased string; an input of fewer than three characters yields
/// the whole lowercased string as its single token.
pub open spec fn trigram_tokens(s: Seq<char>) -> Seq<Seq<char>> {
    if s.len() < 3 {
        seq![lower_of(s)]
    } else {
        char_windows(lower_of(s))
    }
}

/// The trigram tokenizer: lowercases `s` and emits every window of
/// three consecutive characters, stepping one character at a time.
/// An input of fewer than three characters is returned whole,
/// lowercased, as the single token.
pub fn ngram_tokenize(s: &str) -> (r: Vec<String>)
    ensures
        r.deep_view() == trigram_tokens(s@),
{
    let lw = lowercase(s);
    if s.unicode_len() < 3 {
        let mut r: Vec<String> = Vec::new();
        r.push(lw);
        proof {
            assert(r.deep_view() =~= trigram_tokens(s@));
        }
        return r;
    }
    let m = lw.as_str().unicode_len();
    let mut toks: Vec<String> = Vec::new();
    if m < 3 {
        proof {
            assert(toks.deep_view() =~= trigram_tokens(s@));
        }
        return toks;
    }
    let mut i: usize = 0;
    while i + 2 < m
        invariant
            0 <= i <= m - 2,
            m as nat == lw@.len(),
            m >= 3,
            lw@ == lower_of(s@),
            toks.deep_view().len() == i,
            forall|k: int|
                0 <= k < i ==> #[trigger] toks.deep_view()[k] == lower_of(s@).subrange(k, k + 3),
        decreases m - i,
    {
        let w = lw.as_str().substring_char(i, i + 3).to_owned();
        let ghost dv0 = toks.deep_view();
        toks.push(w);
        proof {
            assert(toks.deep_view() =~= dv0.push(w@));
        }
        i = i + 1;
    }
    proof {
        assert(toks.deep_view() =~= trigram_tokens(s@));
    }
    toks
}

} // verus!
