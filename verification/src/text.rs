use vstd::prelude::*;
use crate::chars::{
    spec_is_space, is_space_char, spec_ascii_upper, char_upper, upper_char, str_to_chars,
    chars_to_string,
};
use crate::parse::{
    last_dot, spec_is_float_literal, is_float_literal_chars, subvec,
};

verus! {

// ------------------------------------------------------------------
// Title casing: underscores become spaces, the text splits into words on
// whitespace, the first character of each word is upper-cased, and the
// words are joined again with single spaces.
// ------------------------------------------------------------------

/// A character that separates words: whitespace, or an underscore, which is
/// turned into a space before splitting.
pub open spec fn spec_is_sep(c: char) -> bool {
    spec_is_space(c) || c == '_'
}

/// Length of the leading run of non-separator characters.
pub open spec fn word_end(s: Seq<char>) -> int
    decreases s.len(),
{
    if s.len() == 0 || spec_is_sep(s[0]) {
        0
    } else {
        1 + word_end(s.skip(1))
    }
}

pub proof fn lemma_word_end_chars(s: Seq<char>)
    ensures
        0 <= word_end(s) <= s.len(),
        forall|j: int| 0 <= j < word_end(s) ==> !spec_is_sep(s[j]),
        word_end(s) < s.len() ==> spec_is_sep(s[word_end(s)]),
    decreases s.len(),
{
    if s.len() == 0 || spec_is_sep(s[0]) {
    } else {
        lemma_word_end_chars(s.skip(1));
        assert forall|j: int| 0 <= j < word_end(s) implies !spec_is_sep(s[j]) by {
            if j > 0 {
                assert(s.skip(1)[j - 1] == s[j]);
            }
        }
        if word_end(s) < s.len() {
            assert(s.skip(1)[word_end(s) - 1] == s[word_end(s)]);
        }
    }
}

pub proof fn lemma_word_end_at(s: Seq<char>, k: int)
    requires
        0 <= k <= s.len(),
        forall|j: int| 0 <= j < k ==> !spec_is_sep(s[j]),
        k == s.len() || spec_is_sep(s[k]),
    ensures
        word_end(s) == k,
    decreases s.len(),
{
    if k == 0 {
    } else {
        let t = s.skip(1);
        assert forall|j: int| 0 <= j < k - 1 implies !spec_is_sep(t[j]) by {
            assert(t[j] == s[j + 1]);
        }
        if k - 1 < t.len() {
            assert(t[k - 1] == s[k]);
        }
        lemma_word_end_at(t, k - 1);
    }
}

/// The words of the text: maximal runs of non-separator characters.
pub open spec fn split_words(s: Seq<char>) -> Seq<Seq<char>>
    decreases s.len(),
    via split_words_decreases
{
    if s.len() == 0 {
        Seq::empty()
    } else if spec_is_sep(s[0]) {
        split_words(s.skip(1))
    } else {
        seq![s.take(word_end(s))] + split_words(s.skip(word_end(s)))
    }
}

#[via_fn]
proof fn split_words_decreases(s: Seq<char>) {
    lemma_word_end_chars(s);
}

/// What the first character of a word becomes: ASCII characters keep their
/// ASCII upper-case form, any other goes through the Unicode mapping.
pub open spec fn upper_of_char(c: char) -> Seq<char> {
    if (c as int) < 128 {
        seq![spec_ascii_upper(c)]
    } else {
        char_upper(c)
    }
}

/// A word with its first character upper-cased.
pub open spec fn spec_cap_word(w: Seq<char>) -> Seq<char> {
    if w.len() == 0 {
        w
    } else {
        upper_of_char(w[0]) + w.skip(1)
    }
}

/// The capitalized words joined with single spaces.
pub open spec fn spec_join_caps(ws: Seq<Seq<char>>) -> Seq<char>
    decreases ws.len(),
{
    if ws.len() == 0 {
        Seq::empty()
    } else if ws.len() == 1 {
        spec_cap_word(ws[0])
    } else {
        spec_cap_word(ws[0]) + seq![' '] + spec_join_caps(ws.skip(1))
    }
}

/// The full title-case transform.
pub open spec fn spec_title_of(s: Seq<char>) -> Seq<char> {
    spec_join_caps(split_words(s))
}

/// A nonempty run without separators is one single word.
proof fn lemma_words_single(u: Seq<char>)
    requires
        u.len() > 0,
        forall|j: int| 0 <= j < u.len() ==> !spec_is_sep(u[j]),
    ensures
        split_words(u) == seq![u],
{
    lemma_word_end_at(u, u.len() as int);
    assert(u.take(u.len() as int) =~= u);
    assert(u.skip(u.len() as int) =~= Seq::<char>::empty());
    assert(split_words(Seq::<char>::empty()) =~= Seq::<Seq<char>>::empty());
    assert(split_words(u) == seq![u] + Seq::<Seq<char>>::empty());
    assert(seq![u] + Seq::<Seq<char>>::empty() =~= seq![u]);
}

/// Splitting the text at a point that does not fall inside a word splits its
/// word sequence.
proof fn lemma_words_split(s: Seq<char>, i: int)
    requires
        0 <= i <= s.len(),
        i == 0 || i == s.len() || spec_is_sep(s[i - 1]) || spec_is_sep(s[i]),
    ensures
        split_words(s) == split_words(s.take(i)) + split_words(s.skip(i)),
    decreases s.len(),
{
    if i == 0 {
        assert(s.take(0) =~= Seq::<char>::empty());
        assert(s.skip(0) =~= s);
        assert(split_words(s.take(0)) + split_words(s.skip(0)) =~= split_words(s));
    } else if spec_is_sep(s[0]) {
        let t = s.skip(1);
        if i >= 2 {
            assert(t[i - 2] == s[i - 1]);
        }
        if i < s.len() {
            assert(t[i - 1] == s[i]);
        }
        lemma_words_split(t, i - 1);
        assert(s.take(i)[0] == s[0]);
        assert(s.take(i).skip(1) =~= t.take(i - 1));
        assert(s.skip(i) =~= t.skip(i - 1));
        assert(split_words(s.take(i)) == split_words(t.take(i - 1)));
        assert(split_words(s) == split_words(t));
        assert(split_words(t.take(i - 1)) + split_words(t.skip(i - 1)) =~= split_words(s.take(i))
            + split_words(s.skip(i)));
    } else {
        let k = word_end(s);
        lemma_word_end_chars(s);
        if i < k {
            assert(!spec_is_sep(s[i - 1]));
            assert(!spec_is_sep(s[i]));
            assert(false);
        }
        let w = s.take(k);
        if i == k {
            lemma_words_single(w);
            assert(s.skip(i) =~= s.skip(k));
            assert(split_words(s.take(i)) == seq![w]) by {
                assert(s.take(i) =~= w);
            }
            assert(split_words(s) == seq![w] + split_words(s.skip(k)));
        } else {
            assert(k < i);
            assert(k < s.len());
            assert(spec_is_sep(s[k]));
            let t = s.skip(k);
            assert(t[i - k - 1] == s[i - 1]);
            assert(i - k < t.len() ==> t[i - k] == s[i]);
            lemma_words_split(t, i - k);
            // the prefix s.take(i) starts with the same word
            let p = s.take(i);
            assert forall|j: int| 0 <= j < k implies !spec_is_sep(p[j]) by {
                assert(p[j] == s[j]);
            }
            assert(p[k] == s[k]);
            lemma_word_end_at(p, k);
            assert(p.take(k) =~= w);
            assert(p.skip(k) =~= t.take(i - k));
            assert(split_words(p) == seq![w] + split_words(t.take(i - k)));
            assert(s.skip(i) =~= t.skip(i - k));
            assert(split_words(s) == seq![w] + split_words(t));
            assert(split_words(t) == split_words(t.take(i - k)) + split_words(t.skip(i - k)));
            assert(seq![w] + (split_words(t.take(i - k)) + split_words(t.skip(i - k))) =~= (
            seq![w] + split_words(t.take(i - k))) + split_words(t.skip(i - k)));
        }
    }
}

/// How joining distributes over appended word sequences.
proof fn lemma_join_append(ws1: Seq<Seq<char>>, ws2: Seq<Seq<char>>)
    ensures
        ws1.len() == 0 ==> spec_join_caps(ws1 + ws2) == spec_join_caps(ws2),
        ws2.len() == 0 ==> spec_join_caps(ws1 + ws2) == spec_join_caps(ws1),
        ws1.len() > 0 && ws2.len() > 0 ==> spec_join_caps(ws1 + ws2) == spec_join_caps(ws1)
            + seq![' '] + spec_join_caps(ws2),
    decreases ws1.len(),
{
    if ws1.len() == 0 {
        assert(ws1 + ws2 =~= ws2);
    } else if ws2.len() == 0 {
        assert(ws1 + ws2 =~= ws1);
    } else if ws1.len() == 1 {
        assert((ws1 + ws2).len() >= 2);
        assert((ws1 + ws2)[0] == ws1[0]);
        assert((ws1 + ws2).skip(1) =~= ws2);
        assert(spec_join_caps(ws1) == spec_cap_word(ws1[0]));
    } else {
        lemma_join_append(ws1.skip(1), ws2);
        assert((ws1 + ws2)[0] == ws1[0]);
        assert((ws1 + ws2).skip(1) =~= ws1.skip(1) + ws2);
        assert(spec_join_caps(ws1 + ws2) == spec_cap_word(ws1[0]) + seq![' '] + spec_join_caps(
        ws1.skip(1) + ws2));
        assert((spec_cap_word(ws1[0]) + seq![' '] + spec_join_caps(ws1.skip(1))) + seq![' ']
            + spec_join_caps(ws2) =~= spec_cap_word(ws1[0]) + seq![' '] + (spec_join_caps(
        ws1.skip(1)) + seq![' '] + spec_join_caps(ws2)));
    }
}

fn is_sep_char(c: char) -> (r: bool)
    ensures
        r == spec_is_sep(c),
{
    is_space_char(c) || c == '_'
}

/// The title-case transform on a character vector.
pub fn capitalize_chars(cs: &Vec<char>) -> (r: Vec<char>)
    ensures
        r@ == spec_title_of(cs@),
{
    let n: usize = cs.len();
    let mut out: Vec<char> = Vec::new();
    let mut first: bool = true;
    let mut i: usize = 0;
    while i < n
        invariant
            0 <= i <= n,
            n == cs@.len(),
            i == 0 || i == n || spec_is_sep(cs@[i - 1]) || spec_is_sep(cs@[i as int]),
            out@ == spec_join_caps(split_words(cs@.take(i as int))),
            first == (split_words(cs@.take(i as int)).len() == 0),
        decreases n - i,
    {
        if is_sep_char(cs[i]) {
            proof {
                lemma_words_split(cs@.take(i + 1), i as int);
                assert(cs@.take(i + 1).take(i as int) =~= cs@.take(i as int));
                let rest = cs@.take(i + 1).skip(i as int);
                assert(rest.len() == 1 && spec_is_sep(rest[0]));
                assert(split_words(rest) == split_words(rest.skip(1)));
                assert(rest.skip(1) =~= Seq::<char>::empty());
                assert(split_words(cs@.take(i + 1)) =~= split_words(cs@.take(i as int)));
            }
            i = i + 1;
        } else {
            let mut k: usize = i + 1;
            while k < n && !is_sep_char(cs[k])
                invariant
                    i < k <= n,
                    n == cs@.len(),
                    forall|j: int| i <= j < k ==> !spec_is_sep(cs@[j]),
                decreases n - k,
            {
                k = k + 1;
            }
            let ghost w = cs@.subrange(i as int, k as int);
            let ghost pre = split_words(cs@.take(i as int));
            proof {
                lemma_words_split(cs@.take(k as int), i as int);
                assert(cs@.take(k as int).take(i as int) =~= cs@.take(i as int));
                assert(cs@.take(k as int).skip(i as int) =~= w);
                lemma_words_single(w);
                assert(split_words(cs@.take(k as int)) == pre + seq![w]);
                lemma_join_append(pre, seq![w]);
                assert(spec_join_caps(seq![w]) == spec_cap_word(w));
            }
            if first {
                proof {
                    assert(pre.len() == 0);
                    assert(pre + seq![w] =~= seq![w]);
                    assert(out@ =~= Seq::<char>::empty());
                }
            } else {
                out.push(' ');
                proof {
                    assert(out@ =~= spec_join_caps(pre) + seq![' ']);
                }
            }
            let ghost base = out@;
            let u: String = upper_char(cs[i]);
            let ucs: Vec<char> = str_to_chars(u.as_str());
            proof {
                assert(ucs@ == upper_of_char(cs@[i as int]));
            }
            out.extend_from_slice(ucs.as_slice());
            let mut j: usize = i + 1;
            while j < k
                invariant
                    i < j <= k <= n,
                    n == cs@.len(),
                    out@ == base + upper_of_char(cs@[i as int]) + cs@.subrange(i + 1, j as int),
                decreases k - j,
            {
                out.push(cs[j]);
                j = j + 1;
                proof {
                    assert(out@ =~= base + upper_of_char(cs@[i as int]) + cs@.subrange(
                    i + 1, j as int));
                }
            }
            proof {
                assert(w[0] == cs@[i as int]);
                assert(w.skip(1) =~= cs@.subrange(i + 1, k as int));
                assert(spec_cap_word(w) == upper_of_char(cs@[i as int]) + cs@.subrange(
                i + 1, k as int));
                assert(out@ =~= base + spec_cap_word(w));
                if pre.len() == 0 {
                    assert(out@ =~= spec_join_caps(pre + seq![w]));
                } else {
                    assert(out@ =~= spec_join_caps(pre) + seq![' '] + spec_cap_word(w));
                    assert(out@ =~= spec_join_caps(pre + seq![w]));
                }
                assert(seq![w].len() > 0);
                assert((pre + seq![w]).len() > 0);
            }
            first = false;
            i = k;
        }
    }
    proof {
        assert(cs@.take(n as int) =~= cs@);
    }
    out
}

/// Replaces underscores with spaces, splits into words on whitespace,
/// upper-cases the first character of each word and joins the words again
/// with single spaces.
pub fn capitalize(s: &str) -> (r: String)
    ensures
        r@ == spec_title_of(s@),
{
    let cs: Vec<char> = str_to_chars(s);
    let out: Vec<char> = capitalize_chars(&cs);
    chars_to_string(&out)
}

// ------------------------------------------------------------------
// The name and rarity hidden in a file stem: the text after the last `.`
// is the rarity when it reads as a float, the rest becomes the name.
// ------------------------------------------------------------------

/// The rarity suffix: what follows the last `.` of the stem, when that
/// reads as a float literal.
pub open spec fn spec_rarity_of(stem: Seq<char>) -> Option<Seq<char>> {
    if last_dot(stem) >= 0 && spec_is_float_literal(stem.skip(last_dot(stem) + 1)) {
        Some(stem.skip(last_dot(stem) + 1))
    } else {
        None
    }
}

/// The display name of the stem: the part before the rarity suffix when one
/// exists, the whole stem otherwise, put through the title-case transform.
pub open spec fn spec_name_of(stem: Seq<char>) -> Seq<char> {
    if last_dot(stem) >= 0 && spec_is_float_literal(stem.skip(last_dot(stem) + 1)) {
        spec_title_of(stem.take(last_dot(stem)))
    } else {
        spec_title_of(stem)
    }
}

/// Splits a file stem on its last `.`: when the part after it reads as a
/// float literal it is the rarity and the part before it becomes the name;
/// otherwise the whole stem becomes the name and there is no rarity.
pub fn parse_name_and_rarity(stem: &str) -> (r: (String, Option<String>))
    ensures
        r.0@ == spec_name_of(stem@),
        r.1 is Some <==> spec_rarity_of(stem@) is Some,
        r.1 is Some ==> r.1->0@ == spec_rarity_of(stem@)->0,
        r.1 is Some ==> spec_is_float_literal(r.1->0@),
{
    let cs: Vec<char> = str_to_chars(stem);
    let n: usize = cs.len();
    let mut j: usize = n;
    while j > 0 && cs[j - 1] != '.'
        invariant
            0 <= j <= n,
            n == cs@.len(),
            forall|l: int| j <= l < n ==> cs@[l] != '.',
        decreases j,
    {
        j = j - 1;
    }
    if j == 0 {
        proof {
            crate::parse::lemma_last_dot_none(cs@);
        }
        let name: Vec<char> = capitalize_chars(&cs);
        (chars_to_string(&name), None)
    } else {
        proof {
            crate::parse::lemma_last_dot_at(cs@, j - 1);
        }
        let suffix: Vec<char> = subvec(&cs, j, n);
        proof {
            assert(suffix@ =~= cs@.skip(last_dot(cs@) + 1));
        }
        if is_float_literal_chars(&suffix) {
            let prefix: Vec<char> = subvec(&cs, 0, j - 1);
            proof {
                assert(prefix@ =~= cs@.take(last_dot(cs@)));
            }
            let name: Vec<char> = capitalize_chars(&prefix);
            (chars_to_string(&name), Some(chars_to_string(&suffix)))
        } else {
            let name: Vec<char> = capitalize_chars(&cs);
            (chars_to_string(&name), None)
        }
    }
}

} // verus!
