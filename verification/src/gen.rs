//! Passphrase generation: uniform word draws joined by a separator.
//!
//! Each draw picks an index below the wordlist length; the drawn words are
//! joined in draw order with the separator between consecutive words and
//! nowhere else, as `join_sep` states.

use rand::Rng;
use vstd::prelude::*;

verus! {

/// The words selected by `indices` out of `words`, in draw order.
pub open spec fn chosen(words: Seq<Seq<char>>, indices: Seq<int>) -> Seq<Seq<char>> {
    Seq::new(indices.len(), |k: int| words[indices[k]])
}

/// `parts` joined left to right, with `sep` between consecutive parts but
/// not before the first nor after the last.
pub open spec fn join_sep(parts: Seq<Seq<char>>, sep: Seq<char>) -> Seq<char>
    decreases parts.len(),
{
    if parts.len() == 0 {
        Seq::empty()
    } else if parts.len() == 1 {
        parts[0]
    } else {
        parts[0] + sep + join_sep(parts.skip(1), sep)
    }
}

proof fn lemma_join_append(parts: Seq<Seq<char>>, sep: Seq<char>, w: Seq<char>)
    requires
        parts.len() >= 1,
    ensures
        join_sep(parts.push(w), sep) == join_sep(parts, sep) + sep + w,
    decreases parts.len(),
{
    if parts.len() == 1 {
        assert(parts.push(w).skip(1) =~= seq![w]);
        assert(join_sep(seq![w], sep) == w);
        assert(join_sep(parts.push(w), sep) == parts.push(w)[0] + sep + join_sep(
            parts.push(w).skip(1),
            sep,
        ));
        assert(join_sep(parts.push(w), sep) =~= parts[0] + sep + w);
    } else {
        assert(parts.push(w).skip(1) =~= parts.skip(1).push(w));
        lemma_join_append(parts.skip(1), sep, w);
        assert(join_sep(parts.push(w), sep) =~= join_sep(parts, sep) + sep + w);
    }
}

/// Relies on `rand::thread_rng` and `rand::Rng::gen_range`: a draw from the
/// half-open range `0..n`, which is non-empty when `n >= 1`, so the
/// empty-range panic cannot fire and the result is below `n`.
#[verifier::external_body]
fn random_index(n: usize) -> (r: usize)
    requires
        n >= 1,
    ensures
        r < n,
{
    rand::thread_rng().gen_range(0..n)
}

/// Joins the words at the given indices with `sep`, in index order.
pub fn join_words(words: &Vec<String>, indices: &Vec<usize>, sep: &str) -> (r: String)
    requires
        forall|k: int| 0 <= k < indices@.len() ==> (#[trigger] indices@[k]) < words@.len(),
    ensures
        r@ == join_sep(
            chosen(words.deep_view(), indices@.map_values(|j: usize| j as int)),
            sep@,
        ),
{
    let ghost gw = words.deep_view();
    let ghost sel = chosen(gw, indices@.map_values(|j: usize| j as int));
    let mut s = String::new();
    let mut i: usize = 0;
    while i < indices.len()
        invariant
            i <= indices@.len(),
            gw == words.deep_view(),
            gw.len() == words@.len(),
            sel == chosen(gw, indices@.map_values(|j: usize| j as int)),
            sel.len() == indices@.len(),
            forall|k: int| 0 <= k < indices@.len() ==> (#[trigger] indices@[k]) < words@.len(),
            forall|k: int| 0 <= k < indices@.len() ==> sel[k] == gw[indices@[k] as int],
            s@ == join_sep(sel.take(i as int), sep@),
        decreases indices@.len() - i,
    {
        let idx = indices[i];
        if i != 0 {
            s.append(sep);
        }
        s.append(words[idx].as_str());
        proof {
            assert(sel.take(i + 1) =~= sel.take(i as int).push(sel[i as int]));
            if i == 0 {
                assert(sel.take(1)[0] == sel[0]);
                assert(join_sep(sel.take(1), sep@) == sel[0]);
            } else {
                lemma_join_append(sel.take(i as int), sep@, sel[i as int]);
            }
        }
        i = i + 1;
    }
    proof {
        assert(sel.take(indices@.len() as int) =~= sel);
    }
    s
}

/// Why no passphrase could be generated.
#[derive(Debug)]
pub enum PassGenError {
    /// The wordlist held no entries, so no index can be drawn.
    EmptyWordlist,
}

/// Draws `word_count` indices uniformly and independently, with replacement,
/// and returns the words at those indices joined by `sep` in draw order.
/// Fails exactly when the wordlist is empty.
pub fn generate_passphrase(words: &Vec<String>, word_count: u32, sep: &str) -> (r: Result<
    String,
    PassGenError,
>)
    ensures
        r is Err <==> words@.len() == 0,
        r is Err ==> r->Err_0 == PassGenError::EmptyWordlist,
        r matches Ok(s) ==> exists|idxs: Seq<int>|
            {
                &&& idxs.len() == word_count as nat
                &&& (forall|k: int| 0 <= k < idxs.len() ==> 0 <= #[trigger] idxs[k]
                    < words.deep_view().len())
                &&& s@ == join_sep(chosen(words.deep_view(), idxs), sep@)
            },
{
    if words.len() == 0 {
        return Err(PassGenError::EmptyWordlist);
    }
    let mut indices: Vec<usize> = Vec::new();
    let mut i: u32 = 0;
    while i < word_count
        invariant
            i <= word_count,
            indices@.len() == i as nat,
            words@.len() >= 1,
            forall|k: int| 0 <= k < indices@.len() ==> (#[trigger] indices@[k]) < words@.len(),
        decreases word_count - i,
    {
        let idx = random_index(words.len());
        indices.push(idx);
        i = i + 1;
    }
    let s = join_words(words, &indices, sep);
    proof {
        let idxs = indices@.map_values(|j: usize| j as int);
        assert(idxs.len() == word_count as nat);
        assert(words.deep_view().len() == words@.len());
        assert(forall|k: int| 0 <= k < idxs.len() ==> 0 <= #[trigger] idxs[k]
            < words.deep_view().len());
        assert(s@ == join_sep(chosen(words.deep_view(), idxs), sep@));
    }
    Ok(s)
}

/// `pat` occurs in `s` beginning at position `i`.
pub open spec fn occurs_at(s: Seq<char>, pat: Seq<char>, i: int) -> bool {
    0 <= i && i + pat.len() <= s.len() && s.subrange(i, i + pat.len()) == pat
}

/// `pat` occurs somewhere in `s`.
pub open spec fn contains_seq(s: Seq<char>, pat: Seq<char>) -> bool {
    exists|i: int| occurs_at(s, pat, i)
}

/// Law: a one-word passphrase carries no inserted separator. Joining a
/// single part yields that part unchanged, whatever the separator; so when
/// the separator does not itself occur inside the part, it does not occur
/// in the output at all.
pub proof fn lemma_single_word_join(parts: Seq<Seq<char>>, sep: Seq<char>)
    requires
        parts.len() == 1,
    ensures
        join_sep(parts, sep) == parts[0],
        !contains_seq(parts[0], sep) ==> !contains_seq(join_sep(parts, sep), sep),
{
}

/// `c` occurs somewhere in `s`.
pub open spec fn contains_char(s: Seq<char>, c: char) -> bool {
    exists|i: int| 0 <= i < s.len() && s[i] == c
}

/// The position of the first occurrence of `c` in `s`.
pub open spec fn first_index(s: Seq<char>, c: char) -> int
    decreases s.len(),
{
    if s.len() == 0 {
        0
    } else if s[0] == c {
        0
    } else {
        1 + first_index(s.skip(1), c)
    }
}

proof fn lemma_first_index_props(s: Seq<char>, c: char)
    requires
        contains_char(s, c),
    ensures
        0 <= first_index(s, c) < s.len(),
        s[first_index(s, c)] == c,
        forall|j: int| 0 <= j < first_index(s, c) ==> s[j] != c,
    decreases s.len(),
{
    if s.len() > 0 && s[0] != c {
        let i = choose|i: int| 0 <= i < s.len() && s[i] == c;
        assert(s.skip(1)[i - 1] == c);
        assert(contains_char(s.skip(1), c));
        lemma_first_index_props(s.skip(1), c);
        let fi = first_index(s, c);
        assert(s[fi] == s.skip(1)[fi - 1]);
        assert forall|j: int| 0 <= j < fi implies s[j] != c by {
            if j >= 1 {
                assert(s[j] == s.skip(1)[j - 1]);
            }
        }
    }
}

proof fn lemma_first_index_at(s: Seq<char>, c: char, i: int)
    requires
        0 <= i < s.len(),
        s[i] == c,
        forall|j: int| 0 <= j < i ==> s[j] != c,
    ensures
        first_index(s, c) == i,
    decreases s.len(),
{
    if i > 0 {
        assert(s.skip(1)[i - 1] == c);
        assert forall|j: int| 0 <= j < i - 1 implies s.skip(1)[j] != c by {
            assert(s.skip(1)[j] == s[j + 1]);
        }
        lemma_first_index_at(s.skip(1), c, i - 1);
    }
}

/// `s` split on every occurrence of `c`: the (possibly empty) stretches
/// between occurrences, in order.
pub open spec fn split_char(s: Seq<char>, c: char) -> Seq<Seq<char>>
    decreases s.len()
        via split_char_decreases
{
    if !contains_char(s, c) {
        seq![s]
    } else {
        seq![s.take(first_index(s, c))] + split_char(s.skip(first_index(s, c) + 1), c)
    }
}

#[via_fn]
proof fn split_char_decreases(s: Seq<char>, c: char) {
    if contains_char(s, c) {
        lemma_first_index_props(s, c);
    }
}

/// Law: splitting a joined passphrase on a one-character separator that
/// occurs in none of the parts gives back exactly the parts. (With a longer
/// separator this can fail even when no part contains it: joining `ab` and
/// `ba` with `bb` gives `abbbba`, which splits into three tokens.)
pub proof fn lemma_split_join_inverse(parts: Seq<Seq<char>>, c: char)
    requires
        parts.len() >= 1,
        forall|k: int| 0 <= k < parts.len() ==> !contains_char(#[trigger] parts[k], c),
    ensures
        split_char(join_sep(parts, seq![c]), c) =~~= parts,
    decreases parts.len(),
{
    let sep = seq![c];
    let s = join_sep(parts, sep);
    if parts.len() == 1 {
        assert(s == parts[0]);
        assert(split_char(s, c) =~~= parts);
    } else {
        let rest = join_sep(parts.skip(1), sep);
        assert(s == parts[0] + sep + rest);
        let p0len = parts[0].len() as int;
        assert(s[p0len] == c);
        assert forall|j: int| 0 <= j < p0len implies s[j] != c by {
            assert(s[j] == parts[0][j]);
            if parts[0][j] == c {
                assert(contains_char(parts[0], c));
            }
        }
        assert(contains_char(s, c));
        lemma_first_index_at(s, c, p0len);
        assert(s.take(p0len) =~= parts[0]);
        assert(s.skip(p0len + 1) =~= rest);
        assert forall|k: int| 0 <= k < parts.skip(1).len() implies !contains_char(
            #[trigger] parts.skip(1)[k],
            c,
        ) by {
            assert(parts.skip(1)[k] == parts[k + 1]);
        }
        lemma_split_join_inverse(parts.skip(1), c);
        assert(split_char(s, c) == seq![s.take(p0len)] + split_char(s.skip(p0len + 1), c));
        assert(split_char(s, c) =~~= parts);
    }
}

/// Law: a passphrase of `idxs.len()` draws, split on a one-character
/// separator that occurs in no wordlist entry, yields exactly one token per
/// draw, and every token is a wordlist entry.
pub proof fn lemma_passphrase_tokens(words: Seq<Seq<char>>, idxs: Seq<int>, c: char)
    requires
        idxs.len() >= 1,
        forall|k: int| 0 <= k < idxs.len() ==> 0 <= #[trigger] idxs[k] < words.len(),
        forall|k: int| 0 <= k < words.len() ==> !contains_char(#[trigger] words[k], c),
    ensures
        split_char(join_sep(chosen(words, idxs), seq![c]), c).len() == idxs.len(),
        forall|k: int| 0 <= k < idxs.len() ==> words.contains(
            #[trigger] split_char(join_sep(chosen(words, idxs), seq![c]), c)[k],
        ),
{
    let sel = chosen(words, idxs);
    assert forall|k: int| 0 <= k < sel.len() implies !contains_char(#[trigger] sel[k], c) by {
        assert(sel[k] == words[idxs[k]]);
    }
    lemma_split_join_inverse(sel, c);
    let toks = split_char(join_sep(sel, seq![c]), c);
    assert forall|k: int| 0 <= k < idxs.len() implies words.contains(#[trigger] toks[k]) by {
        assert(toks[k] == sel[k]);
        assert(sel[k] == words[idxs[k]]);
    }
}

} // verus!
