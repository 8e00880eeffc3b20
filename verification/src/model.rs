//! Mathematical model of the transliteration engine.
//!
//! The engine's contracts are stated over these specification functions:
//! the right-to-left maximum-match segmentation (`raw_chunks`, `raw_spec`),
//! the delimiter handling (`remove_sep`, `split_sep`), the tone-mark
//! normalization (`strip_char`, `strip_seq`), and the association-list
//! dictionary (`assoc_lookup`, `assoc_map`, `dict_of`).

use vstd::prelude::*;

verus! {

/// Internal delimiter written after every resolved pronunciation unit.
/// It is a control character not expected in legitimate input or in any
/// dictionary value.
pub const SEP: char = '\u{0007}';

// ---------------------------------------------------------------------
// Dictionary model
// ---------------------------------------------------------------------

/// Value of the last entry whose key is `k`, scanning `es` from the end;
/// `None` when no entry has that key.  Later entries shadow earlier ones,
/// as inserts into a map would.
pub open spec fn assoc_lookup(es: Seq<(Seq<char>, Seq<char>)>, k: Seq<char>) -> Option<
    Seq<char>,
>
    decreases es.len(),
{
    if es.len() == 0 {
        None
    } else if es.last().0 == k {
        Some(es.last().1)
    } else {
        assoc_lookup(es.drop_last(), k)
    }
}

/// The finite map described by an association list.
pub open spec fn assoc_map(es: Seq<(Seq<char>, Seq<char>)>) -> Map<Seq<char>, Seq<char>> {
    Map::new(
        |k: Seq<char>| assoc_lookup(es, k) is Some,
        |k: Seq<char>| assoc_lookup(es, k)->Some_0,
    )
}

/// Pronunciation units joined with one delimiter after each unit:
/// `u1 SEP u2 SEP ... un SEP`.
pub open spec fn joined_units(units: Seq<Seq<char>>) -> Seq<char>
    decreases units.len(),
{
    if units.len() == 0 {
        Seq::empty()
    } else {
        units.first().push(SEP) + joined_units(units.drop_first())
    }
}

/// Merged-dictionary entries contributed by the single-character mapping.
pub open spec fn char_entry_views(cs: Seq<(String, String)>) -> Seq<(Seq<char>, Seq<char>)> {
    cs.map_values(|e: (String, String)| (e.0@, e.1@.push(SEP)))
}

/// Merged-dictionary entries contributed by the word mapping.
pub open spec fn word_entry_views(ws: Seq<(String, Vec<String>)>) -> Seq<
    (Seq<char>, Seq<char>),
> {
    ws.map_values(|e: (String, Vec<String>)| (e.0@, joined_units(e.1.deep_view())))
}

/// The merged dictionary built from a character mapping and a word
/// mapping: character entries first, word entries after them, later
/// entries shadowing earlier ones.
pub open spec fn dict_of(cs: Seq<(String, String)>, ws: Seq<(String, Vec<String>)>) -> Map<
    Seq<char>,
    Seq<char>,
> {
    assoc_map(char_entry_views(cs) + word_entry_views(ws))
}

/// Maximum character length over the word keys, and at least 1.
pub open spec fn max_len_of(ws: Seq<(String, Vec<String>)>) -> nat
    decreases ws.len(),
{
    if ws.len() == 0 {
        1
    } else {
        let rest: nat = max_len_of(ws.drop_last());
        let kl: nat = ws.last().0@.len();
        if kl > rest {
            kl
        } else {
            rest
        }
    }
}

// ---------------------------------------------------------------------
// Segmentation
// ---------------------------------------------------------------------

/// The last `k` characters of `s`: the candidate unit under test.
pub open spec fn window(s: Seq<char>, k: nat) -> Seq<char>
    recommends
        k <= s.len(),
{
    s.subrange(s.len() - k, s.len() as int)
}

/// The smaller of `maxlen` and `n`: the width of the first window tried.
pub open spec fn cap(maxlen: nat, n: nat) -> nat {
    if n <= maxlen {
        n
    } else {
        maxlen
    }
}

/// Length of the widest window of `s`, at most `k` and at least 2
/// characters wide, that is a dictionary key; 0 when none is.  This is
/// the match the engine finds by retrying one character shorter at a
/// fixed right boundary.
pub open spec fn match_len(m: Map<Seq<char>, Seq<char>>, s: Seq<char>, k: nat) -> nat
    recommends
        k <= s.len(),
    decreases k,
{
    if k < 2 {
        0
    } else if m.contains_key(window(s, k)) {
        k
    } else {
        match_len(m, s, (k - 1) as nat)
    }
}

/// Delimiter-joined translation of `s` before the trailing delimiter is
/// dropped: right-to-left maximum-match segmentation.  Each step resolves
/// the widest matching window at the right boundary, or falls back to the
/// single rightmost character -- through the dictionary when it is a key,
/// otherwise passed through unchanged followed by one delimiter.
pub open spec fn raw_chunks(m: Map<Seq<char>, Seq<char>>, maxlen: nat, s: Seq<char>) -> Seq<
    char,
>
    decreases s.len(),
{
    if s.len() == 0 {
        Seq::empty()
    } else {
        let k: nat = match_len(m, s, cap(maxlen, s.len()));
        if 2 <= k && k <= s.len() {
            raw_chunks(m, maxlen, s.take(s.len() - k)) + m[window(s, k)]
        } else {
            let rest: Seq<char> = raw_chunks(m, maxlen, s.drop_last());
            let last: Seq<char> = window(s, 1);
            if m.contains_key(last) {
                rest + m[last]
            } else {
                rest + last.push(SEP)
            }
        }
    }
}

/// The delimited translation result: `raw_chunks` with one trailing
/// delimiter dropped, when there is one.
pub open spec fn raw_spec(m: Map<Seq<char>, Seq<char>>, maxlen: nat, s: Seq<char>) -> Seq<
    char,
> {
    let r: Seq<char> = raw_chunks(m, maxlen, s);
    if r.len() > 0 && r.last() == SEP {
        r.drop_last()
    } else {
        r
    }
}

// ---------------------------------------------------------------------
// Delimiter handling
// ---------------------------------------------------------------------

/// `s` with every delimiter removed.
pub open spec fn remove_sep(s: Seq<char>) -> Seq<char>
    decreases s.len(),
{
    if s.len() == 0 {
        Seq::empty()
    } else if s.first() == SEP {
        remove_sep(s.drop_first())
    } else {
        seq![s.first()] + remove_sep(s.drop_first())
    }
}

/// `s` split on the delimiter: `n` delimiters give `n + 1` tokens, so the
/// empty text gives one empty token.
pub open spec fn split_sep(s: Seq<char>) -> Seq<Seq<char>>
    decreases s.len(),
{
    if s.len() == 0 {
        seq![Seq::<char>::empty()]
    } else if s.first() == SEP {
        seq![Seq::<char>::empty()] + split_sep(s.drop_first())
    } else {
        let rest: Seq<Seq<char>> = split_sep(s.drop_first());
        seq![seq![s.first()] + rest.first()] + rest.drop_first()
    }
}

/// The tokens of `ts` concatenated in order.
pub open spec fn concat_all(ts: Seq<Seq<char>>) -> Seq<char>
    decreases ts.len(),
{
    if ts.len() == 0 {
        Seq::empty()
    } else {
        ts.first() + concat_all(ts.drop_first())
    }
}

// ---------------------------------------------------------------------
// Tone-mark normalization
// ---------------------------------------------------------------------

/// The untoned form of a toned vowel glyph; any other character is
/// unchanged.
pub open spec fn strip_char(c: char) -> char {
    if c == 'ā' || c == 'á' || c == 'ǎ' || c == 'à' {
        'a'
    } else if c == 'ō' || c == 'ó' || c == 'ǒ' || c == 'ò' {
        'o'
    } else if c == 'ē' || c == 'é' || c == 'ě' || c == 'è' {
        'e'
    } else if c == 'ī' || c == 'í' || c == 'ǐ' || c == 'ì' {
        'i'
    } else if c == 'ū' || c == 'ú' || c == 'ǔ' || c == 'ù' {
        'u'
    } else if c == 'ǖ' || c == 'ǘ' || c == 'ǚ' || c == 'ǜ' {
        'ü'
    } else {
        c
    }
}

/// Whether `c` is one of the 24 toned vowel glyphs.
pub open spec fn is_toned(c: char) -> bool {
    strip_char(c) != c
}

/// `s` with every toned vowel glyph replaced by its untoned form.
pub open spec fn strip_seq(s: Seq<char>) -> Seq<char> {
    s.map_values(|c: char| strip_char(c))
}

// ---------------------------------------------------------------------
// The four translation operations
// ---------------------------------------------------------------------

/// Concatenated translation: the delimited result with every delimiter
/// removed.
pub open spec fn translate_spec(m: Map<Seq<char>, Seq<char>>, maxlen: nat, s: Seq<char>) -> Seq<
    char,
> {
    remove_sep(raw_spec(m, maxlen, s))
}

/// Token-sequence translation: the delimited result split on the
/// delimiter.
pub open spec fn tokens_spec(m: Map<Seq<char>, Seq<char>>, maxlen: nat, s: Seq<char>) -> Seq<
    Seq<char>,
> {
    split_sep(raw_spec(m, maxlen, s))
}

/// Concatenated translation with tone marks stripped.
pub open spec fn unmark_translate_spec(
    m: Map<Seq<char>, Seq<char>>,
    maxlen: nat,
    s: Seq<char>,
) -> Seq<char> {
    remove_sep(strip_seq(raw_spec(m, maxlen, s)))
}

/// Token-sequence translation with tone marks stripped.
pub open spec fn unmark_tokens_spec(
    m: Map<Seq<char>, Seq<char>>,
    maxlen: nat,
    s: Seq<char>,
) -> Seq<Seq<char>> {
    split_sep(strip_seq(raw_spec(m, maxlen, s)))
}

// ---------------------------------------------------------------------
// Basic lemmas
// ---------------------------------------------------------------------

/// A match is never wider than the widest window tried, and a match of
/// width 1 is never reported: the single-character step is separate.
pub proof fn lemma_match_len_le(m: Map<Seq<char>, Seq<char>>, s: Seq<char>, k: nat)
    ensures
        match_len(m, s, k) <= k,
        match_len(m, s, k) == 0 || match_len(m, s, k) >= 2,
    decreases k,
{
    if k >= 2 && !m.contains_key(window(s, k)) {
        lemma_match_len_le(m, s, (k - 1) as nat);
    }
}

/// How `remove_sep` acts on one character appended at the end.
pub proof fn lemma_remove_sep_push(t: Seq<char>, c: char)
    ensures
        remove_sep(t.push(c)) == if c == SEP {
            remove_sep(t)
        } else {
            remove_sep(t).push(c)
        },
    decreases t.len(),
{
    if t.len() == 0 {
        reveal_with_fuel(remove_sep, 3);
        assert(t.push(c).drop_first() =~= Seq::<char>::empty());
        if c != SEP {
            assert(remove_sep(t.push(c)) =~= remove_sep(t).push(c));
        }
    } else {
        assert(t.push(c).first() == t.first());
        assert(t.push(c).drop_first() =~= t.drop_first().push(c));
        lemma_remove_sep_push(t.drop_first(), c);
        if t.first() != SEP {
            if c != SEP {
                assert(seq![t.first()] + remove_sep(t.drop_first()).push(c) =~= (seq![t.first()]
                    + remove_sep(t.drop_first())).push(c));
            }
        }
    }
}

/// Removing the delimiter leaves no delimiter behind.
pub proof fn lemma_remove_sep_no_sep(t: Seq<char>)
    ensures
        !remove_sep(t).contains(SEP),
    decreases t.len(),
{
    if t.len() > 0 {
        lemma_remove_sep_no_sep(t.drop_first());
        if t.first() != SEP {
            assert forall|i: int| 0 <= i < remove_sep(t).len() implies remove_sep(t)[i]
                != SEP by {
                if i > 0 {
                    assert(remove_sep(t)[i] == remove_sep(t.drop_first())[i - 1]);
                    assert(remove_sep(t.drop_first()).contains(remove_sep(t)[i])) by {
                        assert(remove_sep(t.drop_first())[i - 1] == remove_sep(t)[i]);
                    }
                }
            }
            if remove_sep(t).contains(SEP) {
                let i: int = choose|i: int|
                    0 <= i < remove_sep(t).len() && remove_sep(t)[i] == SEP;
            }
        }
    }
}

/// Splitting always yields at least one token.
pub proof fn lemma_split_sep_len(t: Seq<char>)
    ensures
        split_sep(t).len() >= 1,
    decreases t.len(),
{
    if t.len() > 0 {
        lemma_split_sep_len(t.drop_first());
    }
}

/// How `split_sep` acts on one character appended at the end: a
/// delimiter opens a fresh empty token, any other character extends the
/// last token.
pub proof fn lemma_split_sep_push(t: Seq<char>, c: char)
    ensures
        split_sep(t.push(c)) == if c == SEP {
            split_sep(t).push(Seq::<char>::empty())
        } else {
            split_sep(t).update(split_sep(t).len() - 1, split_sep(t).last().push(c))
        },
    decreases t.len(),
{
    lemma_split_sep_len(t);
    if t.len() == 0 {
        reveal_with_fuel(split_sep, 3);
        assert(t.push(c).drop_first() =~= Seq::<char>::empty());
        if c == SEP {
            assert(split_sep(t.push(c)) =~~= split_sep(t).push(Seq::<char>::empty()));
        } else {
            assert(split_sep(t.push(c)) =~~= split_sep(t).update(
                split_sep(t).len() - 1,
                split_sep(t).last().push(c),
            ));
        }
    } else {
        assert(t.push(c).first() == t.first());
        assert(t.push(c).drop_first() =~= t.drop_first().push(c));
        lemma_split_sep_push(t.drop_first(), c);
        lemma_split_sep_len(t.drop_first());
        let r: Seq<Seq<char>> = split_sep(t.drop_first());
        if t.first() == SEP {
            if c == SEP {
                assert(split_sep(t.push(c)) =~= split_sep(t).push(Seq::<char>::empty()));
            } else {
                assert(split_sep(t.push(c)) =~= split_sep(t).update(
                    split_sep(t).len() - 1,
                    split_sep(t).last().push(c),
                ));
            }
        } else {
            if c == SEP {
                assert(r.push(Seq::<char>::empty()).first() == r.first());
                assert(r.push(Seq::<char>::empty()).drop_first() =~= r.drop_first().push(
                    Seq::<char>::empty(),
                ));
                assert(split_sep(t.push(c)) =~= split_sep(t).push(Seq::<char>::empty()));
            } else {
                let ru: Seq<Seq<char>> = r.update(r.len() - 1, r.last().push(c));
                if r.len() == 1 {
                    assert(ru.first() == r.first().push(c));
                    assert(ru.drop_first() =~= r.drop_first());
                    assert(seq![(seq![t.first()] + ru.first())] + ru.drop_first() =~= split_sep(
                        t,
                    ).update(split_sep(t).len() - 1, split_sep(t).last().push(c)));
                } else {
                    assert(ru.first() == r.first());
                    assert(ru.drop_first() =~= r.drop_first().update(
                        r.drop_first().len() - 1,
                        r.drop_first().last().push(c),
                    ));
                    assert(seq![(seq![t.first()] + ru.first())] + ru.drop_first() =~= split_sep(
                        t,
                    ).update(split_sep(t).len() - 1, split_sep(t).last().push(c)));
                }
            }
        }
    }
}

/// Concatenating the split tokens yields the text with the delimiters
/// removed.
pub proof fn lemma_concat_split(t: Seq<char>)
    ensures
        concat_all(split_sep(t)) == remove_sep(t),
    decreases t.len(),
{
    lemma_split_sep_len(t);
    if t.len() == 0 {
        reveal_with_fuel(concat_all, 3);
        assert(split_sep(t) =~~= seq![Seq::<char>::empty()]);
        assert(concat_all(split_sep(t)) =~= remove_sep(t));
    } else {
        lemma_concat_split(t.drop_first());
        lemma_split_sep_len(t.drop_first());
        let r: Seq<Seq<char>> = split_sep(t.drop_first());
        if t.first() == SEP {
            assert((seq![Seq::<char>::empty()] + r).drop_first() =~= r);
            assert(concat_all(split_sep(t)) =~= remove_sep(t));
        } else {
            let h: Seq<char> = seq![t.first()] + r.first();
            assert((seq![h] + r.drop_first()).drop_first() =~= r.drop_first());
            assert(concat_all(split_sep(t)) == h + concat_all(r.drop_first()));
            assert(concat_all(r) == r.first() + concat_all(r.drop_first()));
            assert(h + concat_all(r.drop_first()) =~= seq![t.first()] + (r.first() + concat_all(
                r.drop_first(),
            )));
            assert(remove_sep(t) =~= seq![t.first()] + remove_sep(t.drop_first()));
        }
    }
}

/// How `joined_units` acts on one unit appended at the end.
pub proof fn lemma_joined_units_push(us: Seq<Seq<char>>, u: Seq<char>)
    ensures
        joined_units(us.push(u)) == joined_units(us) + u.push(SEP),
    decreases us.len(),
{
    if us.len() == 0 {
        reveal_with_fuel(joined_units, 3);
        assert(us.push(u).drop_first() =~~= Seq::<Seq<char>>::empty());
        assert(joined_units(us.push(u)) =~= joined_units(us) + u.push(SEP));
    } else {
        assert(us.push(u).first() == us.first());
        assert(us.push(u).drop_first() =~= us.drop_first().push(u));
        lemma_joined_units_push(us.drop_first(), u);
        assert(us.first().push(SEP) + (joined_units(us.drop_first()) + u.push(SEP)) =~= (
        us.first().push(SEP) + joined_units(us.drop_first())) + u.push(SEP));
    }
}

/// When no entry at index `i` or later has key `k`, the lookup over the
/// whole list agrees with the lookup over the first `i` entries.
pub proof fn lemma_assoc_lookup_skip(es: Seq<(Seq<char>, Seq<char>)>, k: Seq<char>, i: int)
    requires
        0 <= i <= es.len(),
        forall|j: int| i <= j < es.len() ==> (#[trigger] es[j]).0 != k,
    ensures
        assoc_lookup(es, k) == assoc_lookup(es.take(i), k),
    decreases es.len() - i,
{
    if i == es.len() {
        assert(es.take(i) =~= es);
    } else {
        assert(es.drop_last().take(i) =~= es.take(i));
        lemma_assoc_lookup_skip(es.drop_last(), k, i);
    }
}

} // verus!
