//! Laws of the engine, proved against the model in `model`:
//! pass-through inputs survive translation unchanged, token sequences
//! reconstruct the concatenated result, tone stripping is idempotent and
//! shape-preserving, the widest matching window wins, and no candidate
//! window exceeds the maximum word length.

use vstd::prelude::*;

use crate::engine::PinyinTranslator;
use crate::model::SEP;
use crate::model::cap;
use crate::model::concat_all;
use crate::model::is_toned;
use crate::model::lemma_concat_split;
use crate::model::lemma_match_len_le;
use crate::model::lemma_remove_sep_push;
use crate::model::lemma_split_sep_len;
use crate::model::lemma_split_sep_push;
use crate::model::match_len;
use crate::model::raw_chunks;
use crate::model::raw_spec;
use crate::model::remove_sep;
use crate::model::split_sep;
use crate::model::strip_char;
use crate::model::strip_seq;
use crate::model::tokens_spec;
use crate::model::translate_spec;
use crate::model::window;

verus! {

/// `c` occurs in no key of the dictionary: neither as a one-character
/// key nor inside any word key.
pub open spec fn char_absent(m: Map<Seq<char>, Seq<char>>, c: char) -> bool {
    forall|k: Seq<char>| m.contains_key(k) ==> !k.contains(c)
}

/// Every character of `s` is absent from the dictionary.
pub open spec fn all_absent(m: Map<Seq<char>, Seq<char>>, s: Seq<char>) -> bool {
    forall|i: int| 0 <= i < s.len() ==> char_absent(m, #[trigger] s[i])
}

/// The characters of `s`, each followed by one delimiter: the delimited
/// translation of an input the dictionary knows nothing of.
pub open spec fn interleaved(s: Seq<char>) -> Seq<char>
    decreases s.len(),
{
    if s.len() == 0 {
        Seq::empty()
    } else {
        interleaved(s.drop_last()) + seq![s.last(), SEP]
    }
}

/// One token per character of `s`, in order.
pub open spec fn singleton_tokens(s: Seq<char>) -> Seq<Seq<char>> {
    Seq::new(s.len(), |i: int| seq![s[i]])
}

proof fn lemma_absent_no_match(m: Map<Seq<char>, Seq<char>>, s: Seq<char>, k: nat)
    requires
        all_absent(m, s),
        1 <= k <= s.len(),
    ensures
        !m.contains_key(window(s, k)),
{
    let w = window(s, k);
    if m.contains_key(w) {
        let c = w[0];
        assert(c == s[s.len() - k]);
        assert(char_absent(m, c));
        assert(w.contains(c)) by {
            assert(w[0] == c);
        }
        assert(false);
    }
}

proof fn lemma_match_len_zero(m: Map<Seq<char>, Seq<char>>, s: Seq<char>, k: nat)
    requires
        all_absent(m, s),
        k <= s.len(),
    ensures
        match_len(m, s, k) == 0,
    decreases k,
{
    if k >= 2 {
        lemma_absent_no_match(m, s, k);
        lemma_match_len_zero(m, s, (k - 1) as nat);
    }
}

proof fn lemma_all_absent_prefix(m: Map<Seq<char>, Seq<char>>, s: Seq<char>)
    requires
        all_absent(m, s),
        s.len() >= 1,
    ensures
        all_absent(m, s.drop_last()),
{
    assert forall|i: int| 0 <= i < s.drop_last().len() implies char_absent(
        m,
        s.drop_last()[i],
    ) by {
        assert(s.drop_last()[i] == s[i]);
    }
}

proof fn lemma_pass_through_chunks(m: Map<Seq<char>, Seq<char>>, maxlen: nat, s: Seq<char>)
    requires
        all_absent(m, s),
    ensures
        raw_chunks(m, maxlen, s) == interleaved(s),
    decreases s.len(),
{
    if s.len() != 0 {
        let k0 = cap(maxlen, s.len());
        lemma_match_len_zero(m, s, k0);
        lemma_absent_no_match(m, s, 1);
        lemma_all_absent_prefix(m, s);
        lemma_pass_through_chunks(m, maxlen, s.drop_last());
        assert(window(s, 1).push(SEP) =~= seq![s.last(), SEP]);
    }
}

proof fn lemma_no_sep_prefix(s: Seq<char>)
    requires
        !s.contains(SEP),
        s.len() >= 1,
    ensures
        !s.drop_last().contains(SEP),
        s.last() != SEP,
{
    if s.drop_last().contains(SEP) {
        let i = choose|i: int| 0 <= i < s.drop_last().len() && s.drop_last()[i] == SEP;
        assert(s[i] == SEP);
        assert(s.contains(SEP));
    }
    assert(s.contains(s.last())) by {
        assert(s[s.len() - 1] == s.last());
    }
}

proof fn lemma_remove_sep_interleaved(s: Seq<char>)
    requires
        !s.contains(SEP),
    ensures
        remove_sep(interleaved(s)) == s,
    decreases s.len(),
{
    if s.len() == 0 {
        assert(remove_sep(interleaved(s)) =~= s);
    } else {
        let p = s.drop_last();
        let c = s.last();
        lemma_no_sep_prefix(s);
        lemma_remove_sep_interleaved(p);
        assert(interleaved(s) =~= interleaved(p).push(c).push(SEP));
        lemma_remove_sep_push(interleaved(p).push(c), SEP);
        lemma_remove_sep_push(interleaved(p), c);
        assert(p.push(c) =~= s);
    }
}

proof fn lemma_split_interleaved(s: Seq<char>)
    requires
        !s.contains(SEP),
        s.len() >= 1,
    ensures
        split_sep(interleaved(s).drop_last()) == singleton_tokens(s),
    decreases s.len(),
{
    lemma_no_sep_prefix(s);
    if s.len() == 1 {
        let c = s[0];
        assert(interleaved(s).drop_last() =~= seq![c]);
        reveal_with_fuel(split_sep, 3);
        assert(seq![c].drop_first() =~= Seq::<char>::empty());
        assert(split_sep(seq![c]) =~~= seq![seq![c]]);
        assert(singleton_tokens(s) =~~= seq![seq![c]]);
    } else {
        let p = s.drop_last();
        let c = s.last();
        lemma_split_interleaved(p);
        let u = interleaved(p).drop_last();
        assert(interleaved(p).last() == SEP);
        assert(interleaved(p) =~= u.push(SEP));
        assert(interleaved(s).drop_last() =~= u.push(SEP).push(c));
        lemma_split_sep_push(u, SEP);
        lemma_split_sep_push(u.push(SEP), c);
        lemma_split_sep_len(u);
        let base = split_sep(u).push(Seq::<char>::empty());
        assert(split_sep(u.push(SEP)) == base);
        assert(base.last() =~= Seq::<char>::empty());
        assert(base.update(base.len() - 1, base.last().push(c)) =~~= split_sep(u).push(
            seq![c],
        ));
        assert(singleton_tokens(s) =~~= singleton_tokens(p).push(seq![c]));
    }
}

/// Pass-through idempotence: on an input whose characters occur nowhere
/// in the dictionary, and which holds no internal delimiter, translation
/// returns the input unchanged, and the token sequence holds one
/// single-character token per input character, in order.
pub proof fn lemma_pass_through(pt: &PinyinTranslator, s: Seq<char>)
    requires
        all_absent(pt.dict(), s),
        !s.contains(SEP),
    ensures
        translate_spec(pt.dict(), pt.max_len(), s) == s,
        s.len() >= 1 ==> tokens_spec(pt.dict(), pt.max_len(), s) == singleton_tokens(s),
{
    let m = pt.dict();
    let ml = pt.max_len();
    lemma_pass_through_chunks(m, ml, s);
    if s.len() == 0 {
        assert(translate_spec(m, ml, s) =~= s);
    } else {
        assert(interleaved(s).last() == SEP);
        assert(interleaved(s).len() > 0);
        lemma_remove_sep_interleaved(s);
        lemma_remove_sep_push(interleaved(s).drop_last(), SEP);
        assert(interleaved(s).drop_last().push(SEP) =~= interleaved(s));
        lemma_split_interleaved(s);
    }
}

/// Token reconstruction: concatenating the token-sequence translation in
/// order yields exactly the concatenated translation, for every
/// dictionary and every input.
pub proof fn lemma_token_reconstruction(pt: &PinyinTranslator, s: Seq<char>)
    ensures
        concat_all(tokens_spec(pt.dict(), pt.max_len(), s)) == translate_spec(
            pt.dict(),
            pt.max_len(),
            s,
        ),
{
    lemma_concat_split(raw_spec(pt.dict(), pt.max_len(), s));
}

/// Tone stripping is idempotent: a second pass changes nothing.
pub proof fn lemma_strip_tones_idempotent(s: Seq<char>)
    ensures
        strip_seq(strip_seq(s)) == strip_seq(s),
{
    assert(strip_seq(strip_seq(s)) =~= strip_seq(s));
}

proof fn lemma_split_strip_len(s: Seq<char>)
    ensures
        split_sep(strip_seq(s)).len() == split_sep(s).len(),
    decreases s.len(),
{
    if s.len() != 0 {
        assert(strip_seq(s).drop_first() =~= strip_seq(s.drop_first()));
        lemma_split_strip_len(s.drop_first());
        lemma_split_sep_len(s.drop_first());
        lemma_split_sep_len(strip_seq(s.drop_first()));
        assert(strip_seq(s).first() == strip_char(s.first()));
        assert((strip_char(s.first()) == SEP) == (s.first() == SEP));
    }
}

/// Tone stripping is monotone in shape: it keeps the length, keeps every
/// character that is not a toned vowel glyph (the delimiter included),
/// changes only toned vowel glyphs, and keeps the token count of a
/// delimited text.
pub proof fn lemma_strip_tones_shape(s: Seq<char>)
    ensures
        strip_seq(s).len() == s.len(),
        forall|i: int| 0 <= i < s.len() && !is_toned(s[i]) ==> strip_seq(s)[i] == s[i],
        forall|i: int| 0 <= i < s.len() && strip_seq(s)[i] != s[i] ==> is_toned(s[i]),
        strip_char(SEP) == SEP,
        split_sep(strip_seq(s)).len() == split_sep(s).len(),
{
    lemma_split_strip_len(s);
}

proof fn lemma_match_len_two(m: Map<Seq<char>, Seq<char>>, s: Seq<char>, k: nat)
    requires
        2 <= k <= s.len(),
        m.contains_key(window(s, 2)),
        forall|j: nat| 2 < j <= k ==> !m.contains_key(#[trigger] window(s, j)),
    ensures
        match_len(m, s, k) == 2,
    decreases k,
{
    if k > 2 {
        assert(!m.contains_key(window(s, k)));
        lemma_match_len_two(m, s, (k - 1) as nat);
    }
}

/// Longest-match precedence: when the two trailing characters form a
/// dictionary key and no wider window ending at the same right boundary
/// does, segmentation resolves that two-character entry -- whatever
/// one-character entries its parts may have.
pub proof fn lemma_longest_match_precedence(
    m: Map<Seq<char>, Seq<char>>,
    maxlen: nat,
    s: Seq<char>,
)
    requires
        2 <= s.len(),
        2 <= maxlen,
        m.contains_key(window(s, 2)),
        forall|j: nat| 2 < j <= cap(maxlen, s.len()) ==> !m.contains_key(#[trigger] window(s, j)),
    ensures
        raw_chunks(m, maxlen, s) == raw_chunks(m, maxlen, s.take(s.len() - 2)) + m[window(
            s,
            2,
        )],
{
    lemma_match_len_two(m, s, cap(maxlen, s.len()));
}

/// The width of the unit resolved at any step: the matched window, or
/// the single fallback character.
pub open spec fn step_window_len(m: Map<Seq<char>, Seq<char>>, maxlen: nat, s: Seq<char>) -> nat {
    let k = match_len(m, s, cap(maxlen, s.len()));
    if 2 <= k {
        k
    } else {
        1
    }
}

/// Length bound: no candidate window ever exceeds the maximum word
/// length, nor the text still unprocessed.
pub proof fn lemma_window_length_bound(m: Map<Seq<char>, Seq<char>>, maxlen: nat, s: Seq<char>)
    requires
        1 <= maxlen,
    ensures
        step_window_len(m, maxlen, s) <= maxlen,
        s.len() >= 1 ==> step_window_len(m, maxlen, s) <= s.len(),
{
    lemma_match_len_le(m, s, cap(maxlen, s.len()));
}

} // verus!
