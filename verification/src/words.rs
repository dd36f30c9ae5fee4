//! Whitespace tokenization: splitting text into words, as
//! `str::split_whitespace` does.

use vstd::prelude::*;
use vstd::string::*;

verus! {

/// Whether a character has Unicode's `White_Space` property, the
/// separator class that `str::split_whitespace` splits on.
pub open spec fn is_space(c: char) -> bool {
    ||| c as u32 == 0x20
    ||| (0x9 <= c as u32 && c as u32 <= 0xD)
    ||| c as u32 == 0x85
    ||| c as u32 == 0xA0
    ||| c as u32 == 0x1680
    ||| (0x2000 <= c as u32 && c as u32 <= 0x200A)
    ||| c as u32 == 0x2028
    ||| c as u32 == 0x2029
    ||| c as u32 == 0x202F
    ||| c as u32 == 0x205F
    ||| c as u32 == 0x3000
}

/// Runtime test for [`is_space`].
pub fn is_space_char(c: char) -> (r: bool)
    ensures
        r == is_space(c),
{
    let u = c as u32;
    u == 0x20 || (0x9 <= u && u <= 0xD) || u == 0x85 || u == 0xA0 || u == 0x1680 || (0x2000 <= u
        && u <= 0x200A) || u == 0x2028 || u == 0x2029 || u == 0x202F || u == 0x205F || u == 0x3000
}

/// The length of the maximal run of non-space characters at the head of `s`.
pub open spec fn word_prefix_len(s: Seq<char>) -> nat
    decreases s.len(),
{
    if s.len() == 0 || is_space(s[0]) {
        0
    } else {
        1 + word_prefix_len(s.skip(1))
    }
}

/// The whitespace-separated words of `s`, in order, with all separators
/// dropped and no empty words.
pub open spec fn words(s: Seq<char>) -> Seq<Seq<char>>
    decreases s.len(),
    via words_decreases
{
    if s.len() == 0 {
        seq![]
    } else if is_space(s[0]) {
        words(s.skip(1))
    } else {
        seq![s.take(word_prefix_len(s) as int)] + words(s.skip(word_prefix_len(s) as int))
    }
}

#[via_fn]
proof fn words_decreases(s: Seq<char>) {
    if s.len() > 0 && !is_space(s[0]) {
        assert(word_prefix_len(s) == 1 + word_prefix_len(s.skip(1)));
        lemma_word_prefix_len_le(s);
    }
}

pub proof fn lemma_word_prefix_len_le(s: Seq<char>)
    ensures
        word_prefix_len(s) <= s.len(),
    decreases s.len(),
{
    if s.len() > 0 && !is_space(s[0]) {
        lemma_word_prefix_len_le(s.skip(1));
    }
}

/// The head run of non-space characters is exactly `k` long when the first
/// `k` characters are non-space and the run stops there.
proof fn lemma_word_prefix_len_of_run(t: Seq<char>, k: int)
    requires
        0 <= k <= t.len(),
        forall|m: int| 0 <= m < k ==> !is_space(t[m]),
        k == t.len() || is_space(t[k]),
    ensures
        word_prefix_len(t) == k,
    decreases k,
{
    if k == 0 {
    } else {
        assert(!is_space(t[0]));
        let u = t.skip(1);
        assert(forall|m: int| 0 <= m < k - 1 ==> u[m] == t[m + 1] && !is_space(t[m + 1]));
        if k - 1 < u.len() {
            assert(u[k - 1] == t[k as int]);
        }
        lemma_word_prefix_len_of_run(u, k - 1);
    }
}

/// Skipping one separator character does not change the words.
proof fn lemma_space_step(s: Seq<char>, i: int)
    requires
        0 <= i < s.len(),
        is_space(s[i]),
    ensures
        words(s.skip(i)) == words(s.skip(i + 1)),
{
    let t = s.skip(i);
    assert(t[0] == s[i]);
    assert(t.skip(1) =~= s.skip(i + 1));
}

/// A maximal non-space run from `i` to `j` is the next word, and the words
/// after it are those of the remainder.
proof fn lemma_word_step(s: Seq<char>, i: int, j: int)
    requires
        0 <= i < j <= s.len(),
        forall|m: int| i <= m < j ==> !is_space(s[m]),
        j == s.len() || is_space(s[j]),
    ensures
        words(s.skip(i)) == seq![s.subrange(i, j)] + words(s.skip(j)),
{
    let t = s.skip(i);
    assert(forall|m: int| 0 <= m < j - i ==> t[m] == s[i + m] && !is_space(s[i + m]));
    if j - i < t.len() {
        assert(t[j - i] == s[j]);
    }
    lemma_word_prefix_len_of_run(t, j - i);
    assert(!is_space(t[0]));
    assert(t.take(j - i) =~= s.subrange(i, j));
    assert(t.skip(j - i) =~= s.skip(j));
}

/// Splits a string into its whitespace-separated words.
pub fn split_words(s: &str) -> (r: Vec<String>)
    ensures
        r@.map_values(|w: String| w@) == words(s@),
{
    let n = s.unicode_len();
    let mut r: Vec<String> = Vec::new();
    let mut i: usize = 0;
    proof {
        assert(s@.skip(0) =~= s@);
    }
    while i < n
        invariant
            i <= n,
            n == s@.len(),
            words(s@) == r@.map_values(|w: String| w@) + words(s@.skip(i as int)),
        decreases n - i,
    {
        let c = s.get_char(i);
        if is_space_char(c) {
            proof {
                lemma_space_step(s@, i as int);
            }
            i += 1;
        } else {
            let start = i;
            i += 1;
            while i < n && !is_space_char(s.get_char(i))
                invariant
                    start < i <= n,
                    n == s@.len(),
                    words(s@) == r@.map_values(|w: String| w@) + words(s@.skip(start as int)),
                    forall|m: int| start <= m < i ==> !is_space(s@[m]),
                decreases n - i,
            {
                i += 1;
            }
            let w = s.substring_char(start, i);
            let ghost prev = r@.map_values(|x: String| x@);
            r.push(w.to_owned());
            proof {
                lemma_word_step(s@, start as int, i as int);
                assert(r@.map_values(|x: String| x@) =~= prev.push(s@.subrange(
                    start as int,
                    i as int,
                )));
                assert(prev.push(s@.subrange(start as int, i as int)) =~= prev + seq![s@.subrange(
                    start as int,
                    i as int,
                )]);
                assert(words(s@) == r@.map_values(|x: String| x@) + words(s@.skip(i as int)));
            }
        }
    }
    proof {
        assert(s@.skip(n as int) =~= Seq::<char>::empty());
        assert(words(s@) =~= r@.map_values(|w: String| w@));
    }
    r
}

} // verus!
