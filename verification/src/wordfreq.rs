//! Word-frequency counting: count how often each distinct word occurs, and
//! order the tally by frequency.

use vstd::prelude::*;

verus! {

/// The character views of a list of words.
pub open spec fn word_views(ws: Seq<String>) -> Seq<Seq<char>> {
    ws.map_values(|s: String| s@)
}

/// Every word of `words` appears among `keys`.
pub open spec fn all_words_keyed(keys: Seq<String>, words: Seq<String>) -> bool {
    forall|k: int|
        0 <= k < words.len() ==> exists|j: int|
            0 <= j < keys.len() && keys[j]@ == (#[trigger] words[k])@
}

/// How many entries of `ws` are exactly `w`.
pub open spec fn occurrences(ws: Seq<Seq<char>>, w: Seq<char>) -> int
    decreases ws.len(),
{
    if ws.len() == 0 {
        0
    } else {
        occurrences(ws.drop_last(), w) + (if ws.last() == w {
            1int
        } else {
            0int
        })
    }
}

/// A positive tally means the word really is in the list.
proof fn lemma_occurrences_contained(ws: Seq<Seq<char>>, w: Seq<char>)
    requires
        occurrences(ws, w) >= 1,
    ensures
        exists|k: int| 0 <= k < ws.len() && ws[k] == w,
    decreases ws.len(),
{
    if ws.len() > 0 && ws.last() != w {
        lemma_occurrences_contained(ws.drop_last(), w);
        let k = choose|k: int| 0 <= k < ws.drop_last().len() && ws.drop_last()[k] == w;
        assert(ws[k] == w);
    }
}

/// A tally never exceeds the length of the list.
proof fn lemma_occurrences_le_len(ws: Seq<Seq<char>>, w: Seq<char>)
    ensures
        0 <= occurrences(ws, w) <= ws.len(),
    decreases ws.len(),
{
    if ws.len() > 0 {
        lemma_occurrences_le_len(ws.drop_last(), w);
    }
}

/// Tally how often each distinct word occurs.  Each word of the input
/// appears exactly once among the keys, in order of first appearance, and
/// `counts[j]` is exactly how often `keys[j]` occurs in the input.
pub fn count_frequencies(words: &Vec<String>) -> (r: (Vec<String>, Vec<u32>))
    requires
        words@.len() <= u32::MAX,
    ensures
        r.0@.len() == r.1@.len(),
        forall|a: int, b: int| 0 <= a < b < r.0@.len() ==> r.0@[a]@ != r.0@[b]@,
        forall|j: int|
            0 <= j < r.1@.len() ==> (#[trigger] r.1@[j]) == occurrences(
                word_views(words@),
                r.0@[j]@,
            ),
        all_words_keyed(r.0@, words@),
        forall|j: int| 0 <= j < r.1@.len() ==> (#[trigger] r.1@[j]) >= 1,
{
    let mut keys: Vec<String> = Vec::new();
    let mut counts: Vec<u32> = Vec::new();
    let mut i: usize = 0;
    while i < words.len()
        invariant
            words@.len() <= u32::MAX,
            i <= words@.len(),
            keys@.len() == counts@.len(),
            forall|a: int, b: int| 0 <= a < b < keys@.len() ==> keys@[a]@ != keys@[b]@,
            forall|j: int|
                0 <= j < counts@.len() ==> (#[trigger] counts@[j]) == occurrences(
                    word_views(words@.take(i as int)),
                    keys@[j]@,
                ),
            all_words_keyed(keys@, words@.take(i as int)),
            forall|j: int| 0 <= j < counts@.len() ==> (#[trigger] counts@[j]) >= 1,
        decreases words@.len() - i,
    {
        let ghost keys0 = keys@;
        let ghost prev = word_views(words@.take(i as int));
        let ghost next = word_views(words@.take(i + 1));
        proof {
            assert(next.drop_last() =~= prev);
            assert(next.last() == words@[i as int]@);
        }
        let mut j: usize = 0;
        let mut found = false;
        while j < keys.len() && !found
            invariant
                j <= keys@.len(),
                i < words@.len(),
                !found ==> forall|a: int| 0 <= a < j ==> keys@[a]@ != words@[i as int]@,
                found ==> j < keys@.len() && keys@[j as int]@ == words@[i as int]@,
            decreases keys@.len() - j + (if found {
                0int
            } else {
                1int
            }),
        {
            let kj = &keys[j];
            let wi = &words[i];
            if kj.eq(wi) {
                found = true;
            } else {
                j = j + 1;
            }
        }
        if found {
            proof {
                lemma_occurrences_le_len(prev, keys@[j as int]@);
                assert(exists|jj: int|
                    0 <= jj < keys@.len() && keys@[jj]@ == words@[i as int]@);
            }
            let c = counts[j];
            counts[j] = c + 1;
            proof {
                assert forall|jj: int|
                    0 <= jj < counts@.len() implies (#[trigger] counts@[jj]) == occurrences(
                    next,
                    keys@[jj]@,
                ) by {
                    if jj != j as int {
                        assert(keys@[jj]@ != words@[i as int]@);
                    }
                }
            }
        } else {
            proof {
                lemma_occurrences_le_len(prev, words@[i as int]@);
                if occurrences(prev, words@[i as int]@) >= 1 {
                    lemma_occurrences_contained(prev, words@[i as int]@);
                    let k = choose|k: int| 0 <= k < prev.len() && prev[k] == words@[i as int]@;
                    assert(words@.take(i as int)[k] == words@[k]);
                    assert(prev[k] == words@[k]@);
                    assert(false);
                }
                assert(occurrences(prev, words@[i as int]@) == 0);
            }
            let w = words[i].clone();
            keys.push(w);
            counts.push(1);
            proof {
                assert(keys@[keys@.len() - 1]@ == words@[i as int]@);
                assert(exists|jj: int|
                    0 <= jj < keys@.len() && keys@[jj]@ == words@[i as int]@);
                assert forall|jj: int|
                    0 <= jj < counts@.len() implies (#[trigger] counts@[jj]) == occurrences(
                    next,
                    keys@[jj]@,
                ) by {
                    if jj < counts@.len() - 1 {
                        assert(keys@[jj]@ != words@[i as int]@);
                    }
                }
            }
        }
        i = i + 1;
        proof {
            let cur = words@.take(i as int);
            let prior = words@.take(i - 1);
            assert forall|k: int|
                0 <= k < cur.len() implies exists|jj: int|
                0 <= jj < keys@.len() && keys@[jj]@ == (#[trigger] cur[k])@ by {
                if k == i - 1 {
                    assert(cur[k] == words@[i - 1]);
                    assert(exists|jj: int|
                        0 <= jj < keys@.len() && keys@[jj]@ == words@[i - 1]@);
                } else {
                    assert(prior[k] == words@[k]);
                    assert(cur[k] == words@[k]);
                    let jw = choose|jw: int|
                        0 <= jw < keys0.len() && keys0[jw]@ == (prior[k])@;
                    assert(keys@[jw]@ == cur[k]@);
                }
            }
            assert(all_words_keyed(keys@, cur));
        }
    }
    proof {
        assert(words@.take(words@.len() as int) =~= words@);
    }
    (keys, counts)
}

/// Whether the Unicode tables class a character as alphanumeric; a function
/// of the character alone.
pub uninterp spec fn is_alnum_char(c: char) -> bool;

/// Relies on `char::is_alphanumeric`: the result depends on the character
/// alone.
#[verifier::external_body]
fn char_is_alphanumeric(c: char) -> (r: bool)
    ensures
        r == is_alnum_char(c),
{
    c.is_alphanumeric()
}

/// The Unicode lowercase form of a character sequence; a function of the
/// characters alone.
pub uninterp spec fn lower_of(s: Seq<char>) -> Seq<char>;

/// Relies on `str::to_lowercase`: the result depends on the characters
/// alone, and an empty string stays empty.
#[verifier::external_body]
fn lowercase(s: &str) -> (r: String)
    ensures
        r@ == lower_of(s@),
        s@.len() == 0 ==> r@.len() == 0,
{
    s.to_lowercase()
}

/// Relies on `str::chars`: the characters of the string, in order.
#[verifier::external_body]
fn str_to_chars(s: &str) -> (r: Vec<char>)
    ensures
        r@ == s@,
{
    s.chars().collect()
}

/// Relies on `String::from_iter` (through `collect`): the string of exactly
/// these characters, in order.
#[verifier::external_body]
fn chars_to_string(v: &Vec<char>) -> (r: String)
    ensures
        r@ == v@,
{
    v.iter().collect()
}

/// The word with every non-alphanumeric character removed.
pub open spec fn clean_spec(s: Seq<char>) -> Seq<char>
    decreases s.len(),
{
    if s.len() == 0 {
        Seq::empty()
    } else {
        let p = clean_spec(s.drop_last());
        if is_alnum_char(s.last()) {
            p.push(s.last())
        } else {
            p
        }
    }
}

/// Strip a word to its alphanumeric characters.
pub fn clean_word(word: &str) -> (r: String)
    ensures
        r@ == clean_spec(word@),
{
    let cs = str_to_chars(word);
    let mut kept: Vec<char> = Vec::new();
    let mut i: usize = 0;
    while i < cs.len()
        invariant
            cs@ == word@,
            i <= cs@.len(),
            kept@ == clean_spec(cs@.take(i as int)),
        decreases cs@.len() - i,
    {
        let c = cs[i];
        if char_is_alphanumeric(c) {
            kept.push(c);
        }
        i = i + 1;
        proof {
            assert(cs@.take(i as int).drop_last() =~= cs@.take(i - 1));
        }
    }
    proof {
        assert(cs@.take(cs@.len() as int) =~= cs@);
    }
    chars_to_string(&kept)
}

/// Normalise one whitespace-separated word: strip it to its alphanumeric
/// characters, drop it when the remaining text is shorter (in bytes) than
/// `min_length`, and fold its case when asked to.
pub fn normalize_word(word: &str, min_length: usize, ignore_case: bool) -> (r: Option<String>)
    ensures
        ({
            let cleaned = clean_spec(word@);
            match r {
                Some(s) => {
                    &&& (vstd::utf8::encode_utf8(cleaned).len() as usize) >= min_length
                    &&& s@ == (if ignore_case {
                        lower_of(cleaned)
                    } else {
                        cleaned
                    })
                },
                None => (vstd::utf8::encode_utf8(cleaned).len() as usize) < min_length,
            }
        }),
{
    let cleaned = clean_word(word);
    if cleaned.as_str().len() < min_length {
        return None;
    }
    if ignore_case {
        Some(lowercase(cleaned.as_str()))
    } else {
        Some(cleaned)
    }
}

/// The view-level key/count pairs of a tally.
pub open spec fn tally_pairs(ks: Seq<String>, cs: Seq<u32>) -> Seq<(Seq<char>, u32)> {
    Seq::new(ks.len(), |i: int| (ks[i]@, cs[i]))
}

/// Order a tally by falling count.  The result pairs up exactly the same
/// keys with the same counts — a permutation of the input — and the counts
/// never rise along the result.
pub fn sort_by_count(keys: Vec<String>, counts: Vec<u32>) -> (r: (Vec<String>, Vec<u32>))
    requires
        keys@.len() == counts@.len(),
    ensures
        r.0@.len() == keys@.len(),
        r.1@.len() == keys@.len(),
        forall|a: int, b: int| 0 <= a <= b < r.1@.len() ==> r.1@[a] >= r.1@[b],
        tally_pairs(r.0@, r.1@).to_multiset() == tally_pairs(keys@, counts@).to_multiset(),
{
    broadcast use vstd::seq_lib::group_to_multiset_ensures;

    let mut sk = keys;
    let mut sc = counts;
    let mut out_k: Vec<String> = Vec::new();
    let mut out_c: Vec<u32> = Vec::new();
    while sk.len() > 0
        invariant
            sk@.len() == sc@.len(),
            out_k@.len() == out_c@.len(),
            out_k@.len() + sk@.len() == keys@.len(),
            forall|a: int, b: int| 0 <= a <= b < out_c@.len() ==> out_c@[a] >= out_c@[b],
            out_c@.len() > 0 ==> forall|t: int|
                0 <= t < sc@.len() ==> out_c@[out_c@.len() - 1] >= sc@[t],
            tally_pairs(out_k@, out_c@).to_multiset().add(tally_pairs(sk@, sc@).to_multiset())
                =~= tally_pairs(keys@, counts@).to_multiset(),
        decreases sk@.len(),
    {
        // The first index holding the largest remaining count.
        let mut m: usize = 0;
        let mut t: usize = 1;
        while t < sc.len()
            invariant
                sc@.len() > 0,
                m < sc@.len(),
                t <= sc@.len(),
                forall|u: int| 0 <= u < t ==> sc@[m as int] >= sc@[u],
            decreases sc@.len() - t,
        {
            if sc[t] > sc[m] {
                m = t;
            }
            t = t + 1;
        }
        let ghost old_pairs = tally_pairs(sk@, sc@);
        let ghost old_out = tally_pairs(out_k@, out_c@);
        let c = sc.remove(m);
        let k = sk.remove(m);
        proof {
            broadcast use vstd::seq_lib::group_to_multiset_ensures;

            assert(tally_pairs(sk@, sc@) =~= old_pairs.remove(m as int));
            assert(old_pairs.contains(old_pairs[m as int]));
            assert(old_pairs.to_multiset().count(old_pairs[m as int]) > 0);
            assert(old_pairs.remove(m as int).to_multiset() == old_pairs.to_multiset().remove(
                old_pairs[m as int],
            ));
        }
        out_k.push(k);
        out_c.push(c);
        proof {
            broadcast use vstd::seq_lib::group_to_multiset_ensures;

            assert(tally_pairs(out_k@, out_c@) =~= old_out.push((k@, c)));
            assert((k@, c) == old_pairs[m as int]);
            let x = old_pairs[m as int];
            let pm = old_pairs.to_multiset();
            assert(old_out.push(x).to_multiset() =~= old_out.to_multiset().insert(x));
            assert(pm.count(x) > 0);
            assert(pm.remove(x).insert(x) =~= pm);
            assert(tally_pairs(out_k@, out_c@).to_multiset() =~= old_out.to_multiset().insert(x));
            assert(tally_pairs(sk@, sc@).to_multiset() =~= pm.remove(x));
            assert(tally_pairs(out_k@, out_c@).to_multiset().add(
                tally_pairs(sk@, sc@).to_multiset(),
            ) =~= old_out.to_multiset().add(old_pairs.to_multiset()));
        }
    }
    (out_k, out_c)
}

} // verus!
