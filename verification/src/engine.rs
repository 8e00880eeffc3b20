//! The segmentation engine: right-to-left maximum-match transliteration
//! over a merged character-and-word dictionary.

use vstd::prelude::*;
use vstd::slice::slice_subrange;

use crate::model::SEP;
use crate::model::assoc_lookup;
use crate::model::assoc_map;
use crate::model::cap;
use crate::model::char_entry_views;
use crate::model::dict_of;
use crate::model::joined_units;
use crate::model::lemma_assoc_lookup_skip;
use crate::model::lemma_joined_units_push;
use crate::model::lemma_remove_sep_no_sep;
use crate::model::lemma_remove_sep_push;
use crate::model::lemma_split_sep_len;
use crate::model::lemma_split_sep_push;
use crate::model::match_len;
use crate::model::max_len_of;
use crate::model::raw_chunks;
use crate::model::raw_spec;
use crate::model::remove_sep;
use crate::model::split_sep;
use crate::model::strip_char;
use crate::model::strip_seq;
use crate::model::tokens_spec;
use crate::model::translate_spec;
use crate::model::unmark_tokens_spec;
use crate::model::unmark_translate_spec;
use crate::model::window;
use crate::model::word_entry_views;
use crate::text::chars_eq;
use crate::text::chars_to_string;
use crate::text::copy_chars;
use crate::text::str_chars;

verus! {

/// `s` with every internal delimiter removed.
fn remove_sep_string(s: &str) -> (r: String)
    ensures
        r@ == remove_sep(s@),
        !r@.contains(SEP),
{
    let chars: Vec<char> = str_chars(s);
    let n: usize = chars.len();
    let mut out: Vec<char> = Vec::new();
    let mut i: usize = 0;
    proof {
        assert(chars@.take(0) =~= Seq::<char>::empty());
    }
    while i < n
        invariant
            n == chars@.len(),
            i <= n,
            out@ == remove_sep(chars@.take(i as int)),
        decreases n - i,
    {
        let c = chars[i];
        if c != SEP {
            out.push(c);
        }
        i = i + 1;
        proof {
            assert(chars@.take(i as int) =~= chars@.take(i - 1).push(chars@[i - 1]));
            lemma_remove_sep_push(chars@.take(i - 1), chars@[i - 1]);
        }
    }
    proof {
        assert(chars@.take(n as int) =~= chars@);
        lemma_remove_sep_no_sep(chars@);
    }
    chars_to_string(out.as_slice())
}

/// `s` split on the internal delimiter, one string per token.
fn split_string(s: &str) -> (r: Vec<String>)
    ensures
        r.deep_view() == split_sep(s@),
{
    let chars: Vec<char> = str_chars(s);
    let n: usize = chars.len();
    let mut tokens: Vec<String> = Vec::new();
    let mut cur: Vec<char> = Vec::new();
    let mut i: usize = 0;
    proof {
        assert(chars@.take(0) =~= Seq::<char>::empty());
        assert(split_sep(chars@.take(0)) =~~= tokens.deep_view().push(cur@));
    }
    while i < n
        invariant
            n == chars@.len(),
            i <= n,
            split_sep(chars@.take(i as int)) == tokens.deep_view().push(cur@),
        decreases n - i,
    {
        let ghost tokens_before = tokens.deep_view();
        let ghost cur_before = cur@;
        let c = chars[i];
        if c == SEP {
            tokens.push(chars_to_string(cur.as_slice()));
            cur = Vec::new();
        } else {
            cur.push(c);
        }
        i = i + 1;
        proof {
            assert(chars@.take(i as int) =~= chars@.take(i - 1).push(chars@[i - 1]));
            lemma_split_sep_push(chars@.take(i - 1), chars@[i - 1]);
            lemma_split_sep_len(chars@.take(i - 1));
            if chars@[i - 1] == SEP {
                assert(tokens.deep_view() =~~= tokens_before.push(cur_before));
                assert(split_sep(chars@.take(i as int)) =~~= tokens.deep_view().push(cur@));
            } else {
                assert(tokens_before.push(cur_before).update(
                    tokens_before.push(cur_before).len() - 1,
                    cur_before.push(chars@[i - 1]),
                ) =~~= tokens_before.push(cur_before.push(chars@[i - 1])));
                assert(split_sep(chars@.take(i as int)) =~~= tokens.deep_view().push(cur@));
            }
        }
    }
    let ghost tokens_before = tokens.deep_view();
    tokens.push(chars_to_string(cur.as_slice()));
    proof {
        assert(chars@.take(n as int) =~= chars@);
        assert(tokens.deep_view() =~~= tokens_before.push(cur@));
    }
    tokens
}

/// The untoned form of a toned vowel glyph; any other character is
/// returned unchanged.
fn strip_char_exec(c: char) -> (r: char)
    ensures
        r == strip_char(c),
{
    if c == 'ā' || c == 'á' || c == 'ǎ' || c == 'à' {
        'a'
    } else if c == 'ō' || c == 'ó' || c == 'ǒ' || c == 'ò' {
        'o'
    } else if c == 'ē' || c == 'é' || c == 'ě' || c == 'è' {
        'e'
    } else if c == 'ī' || c == 'í' || c == 'ǐ' || c == 'ì' {
        'i'
    } else if c == 'ū' || c == 'ú' || c == 'ǔ' || c == 'ù' {
        'u'
    } else if c == 'ǖ' || c == 'ǘ' || c == 'ǚ' || c == 'ǜ' {
        'ü'
    } else {
        c
    }
}

/// One merged-dictionary entry: a key of source characters and its
/// delimiter-joined pronunciation value.
struct DictEntry {
    key: Vec<char>,
    value: Vec<char>,
}

/// The abstract content of a run of dictionary entries.
spec fn entry_views_of(es: Seq<DictEntry>) -> Seq<(Seq<char>, Seq<char>)> {
    es.map_values(|e: DictEntry| (e.key@, e.value@))
}

/// The transliteration engine.  It owns the merged dictionary and the
/// maximum word length, both immutable after construction; every
/// translation call is stateless with respect to prior calls.
pub struct PinyinTranslator {
    max_word_len: usize,
    entries: Vec<DictEntry>,
}

impl PinyinTranslator {
    /// The merged dictionary as a map from candidate units to
    /// delimiter-joined pronunciation values.
    pub closed spec fn dict(&self) -> Map<Seq<char>, Seq<char>> {
        assoc_map(entry_views_of(self.entries@))
    }

    /// The widest window the engine will try, in characters.
    pub closed spec fn max_len(&self) -> nat {
        self.max_word_len as nat
    }

    /// Looks `w` up in the merged dictionary.
    fn lookup(&self, w: &[char]) -> (r: Option<Vec<char>>)
        ensures
            match r {
                Some(v) => self.dict().contains_key(w@) && v@ == self.dict()[w@],
                None => !self.dict().contains_key(w@),
            },
    {
        let ghost es = entry_views_of(self.entries@);
        let n: usize = self.entries.len();
        let mut i: usize = n;
        while i > 0
            invariant
                n == self.entries@.len(),
                i <= n,
                es == entry_views_of(self.entries@),
                forall|j: int| i <= j < n ==> (#[trigger] es[j]).0 != w@,
            decreases i,
    {
        i = i - 1;
        if chars_eq(self.entries[i].key.as_slice(), w) {
            let v = copy_chars(self.entries[i].value.as_slice());
            proof {
                assert(es[i as int].0 == w@);
                lemma_assoc_lookup_skip(es, w@, i + 1);
                assert(es.take(i + 1).last() == es[i as int]);
                assert(assoc_lookup(es, w@) == Some(es[i as int].1));
            }
            return Some(v);
        }
        proof {
            assert(es[i as int].0 != w@);
        }
    }
        proof {
            lemma_assoc_lookup_skip(es, w@, 0);
            assert(es.take(0) =~= Seq::<(Seq<char>, Seq<char>)>::empty());
            assert(assoc_lookup(es, w@) is None);
        }
        None
    }

    /// Finds the widest window of at least 2 and at most `k0` characters
    /// ending at character index `end` that is a dictionary key, together
    /// with its value; `None` when no such window matches.
    fn find_match(&self, s: &Vec<char>, end: usize, k0: usize) -> (r: Option<(usize, Vec<char>)>)
        requires
            k0 <= end,
            end <= s@.len(),
        ensures
            ({
                let t = s@.take(end as int);
                match r {
                    Some(p) => 2 <= p.0 && p.0 <= k0 && match_len(self.dict(), t, k0 as nat)
                        == p.0 && self.dict().contains_key(window(t, p.0 as nat)) && p.1@
                        == self.dict()[window(t, p.0 as nat)],
                    None => match_len(self.dict(), t, k0 as nat) == 0,
                }
            }),
    {
        let ghost t = s@.take(end as int);
        let ghost d = self.dict();
        let mut k: usize = k0;
        while k >= 2
            invariant
                k <= k0,
                k0 <= end,
                end <= s@.len(),
                t == s@.take(end as int),
                d == self.dict(),
                match_len(d, t, k0 as nat) == match_len(d, t, k as nat),
            decreases k,
        {
            let w = slice_subrange(s.as_slice(), end - k, end);
            proof {
                assert(w@ =~= window(t, k as nat));
            }
            let hit = self.lookup(w);
            match hit {
                Some(v) => {
                    proof {
                        assert(match_len(d, t, k as nat) == k as nat);
                    }
                    return Some((k, v));
                },
                None => {
                    proof {
                        assert(match_len(d, t, k as nat) == match_len(d, t, (k - 1) as nat));
                    }
                    k = k - 1;
                },
            }
        }
        proof {
            assert(match_len(d, t, k as nat) == 0);
        }
        None
    }

    /// The delimited translation: right-to-left maximum-match
    /// segmentation of `content`, each resolved unit followed by one
    /// internal delimiter, with the single trailing delimiter dropped.
    pub fn translate_raw(&self, content: String) -> (r: String)
        ensures
            r@ == raw_spec(self.dict(), self.max_len(), content@),
    {
        let s: Vec<char> = str_chars(content.as_str());
        let ghost d = self.dict();
        let ghost ml = self.max_len();
        let mut end: usize = s.len();
        let mut result: Vec<char> = Vec::new();
        proof {
            assert(s@.take(s@.len() as int) =~= s@);
            assert(raw_chunks(d, ml, s@) + Seq::<char>::empty() =~= raw_chunks(d, ml, s@));
        }
        while end > 0
            invariant
                end <= s@.len(),
                d == self.dict(),
                ml == self.max_len(),
                raw_chunks(d, ml, s@) == raw_chunks(d, ml, s@.take(end as int)) + result@,
            decreases end,
        {
            let ghost t = s@.take(end as int);
            let ghost result_before = result@;
            let k0: usize = if end < self.max_word_len {
                end
            } else {
                self.max_word_len
            };
            proof {
                assert(cap(ml, t.len()) == k0 as nat);
            }
            let mut chunk: Vec<char> = Vec::new();
            let mut step: usize = 1;
            let found = self.find_match(&s, end, k0);
            match found {
                Some(p) => {
                    step = p.0;
                    chunk = p.1;
                    proof {
                        assert(2 <= step <= t.len());
                        assert(t.take(t.len() - step) =~= s@.take(end - step));
                        assert(raw_chunks(d, ml, t) == raw_chunks(d, ml, s@.take(end - step))
                            + chunk@);
                    }
                },
                None => {
                    let w = slice_subrange(s.as_slice(), end - 1, end);
                    proof {
                        assert(w@ =~= window(t, 1));
                        assert(t.drop_last() =~= s@.take(end - 1));
                    }
                    let hit = self.lookup(w);
                    match hit {
                        Some(v) => {
                            chunk = v;
                        },
                        None => {
                            chunk.push(s[end - 1]);
                            chunk.push(SEP);
                            proof {
                                assert(chunk@ =~= window(t, 1).push(SEP));
                            }
                        },
                    }
                    proof {
                        assert(raw_chunks(d, ml, t) == raw_chunks(d, ml, s@.take(end - 1))
                            + chunk@);
                    }
                },
            }
            let ghost chunk_view = chunk@;
            chunk.append(&mut result);
            result = chunk;
            end = end - step;
            proof {
                assert(result@ == chunk_view + result_before);
                assert(raw_chunks(d, ml, t) == raw_chunks(d, ml, s@.take(end as int))
                    + chunk_view);
                assert((raw_chunks(d, ml, s@.take(end as int)) + chunk_view) + result_before
                    =~= raw_chunks(d, ml, s@.take(end as int)) + (chunk_view
                    + result_before));
            }
        }
        proof {
            assert(s@.take(0) =~= Seq::<char>::empty());
            assert(raw_chunks(d, ml, s@) == result@);
        }
        let mut out: Vec<char> = result;
        if out.len() > 0 {
            let last_idx: usize = out.len() - 1;
            if out[last_idx] == SEP {
                out.pop();
                proof {
                    assert(out@ =~= raw_chunks(d, ml, s@).drop_last());
                }
            }
        }
        proof {
            assert(out@ == raw_spec(d, ml, s@));
        }
        chars_to_string(out.as_slice())
    }

    /// Translation as one concatenated string: the delimited result with
    /// every internal delimiter removed, so no delimiter ever reaches the
    /// caller.
    pub fn translate(&self, content: String) -> (r: String)
        ensures
            r@ == translate_spec(self.dict(), self.max_len(), content@),
            !r@.contains(SEP),
    {
        let raw = self.translate_raw(content);
        remove_sep_string(raw.as_str())
    }

    /// Translation as a token sequence: the delimited result split on the
    /// internal delimiter, one token per resolved source character, in
    /// original left-to-right order.
    pub fn translate_as_slice(&self, content: String) -> (r: Vec<String>)
        ensures
            r.deep_view() == tokens_spec(self.dict(), self.max_len(), content@),
    {
        let raw = self.translate_raw(content);
        split_string(raw.as_str())
    }

    /// Tone-mark normalization: every toned vowel glyph of `content`
    /// replaced by its untoned form, all other characters (the internal
    /// delimiter included) left in place.
    pub fn unmark(&self, content: String) -> (r: String)
        ensures
            r@ == strip_seq(content@),
    {
        let chars: Vec<char> = str_chars(content.as_str());
        let n: usize = chars.len();
        let mut out: Vec<char> = Vec::new();
        let mut i: usize = 0;
        while i < n
            invariant
                n == chars@.len(),
                i <= n,
                out@.len() == i,
                forall|j: int| 0 <= j < i ==> out@[j] == strip_char(chars@[j]),
            decreases n - i,
        {
            let c = strip_char_exec(chars[i]);
            out.push(c);
            i = i + 1;
        }
        proof {
            assert(out@ =~= strip_seq(chars@));
        }
        chars_to_string(out.as_slice())
    }

    /// Translation as one concatenated string with tone marks stripped
    /// from every pronunciation unit; no internal delimiter reaches the
    /// caller.
    pub fn unmark_translate(&self, content: String) -> (r: String)
        ensures
            r@ == unmark_translate_spec(self.dict(), self.max_len(), content@),
            !r@.contains(SEP),
    {
        let raw = self.translate_raw(content);
        let stripped = self.unmark(raw);
        remove_sep_string(stripped.as_str())
    }

    /// Translation as a token sequence with tone marks stripped from
    /// every pronunciation unit.
    pub fn unmark_translate_as_slice(&self, content: String) -> (r: Vec<String>)
        ensures
            r.deep_view() == unmark_tokens_spec(self.dict(), self.max_len(), content@),
    {
        let raw = self.translate_raw(content);
        let stripped = self.unmark(raw);
        split_string(stripped.as_str())
    }

    /// Builds an engine from the two loader-supplied mappings, merged
    /// into one dictionary: every single-character entry first, then
    /// every word entry, each value the pronunciation units joined by
    /// the internal delimiter with one trailing delimiter.  The maximum
    /// word length is the widest word key, and at least 1.
    ///
    /// A character entry maps one source character to one delimiter-free
    /// pronunciation unit; a word entry maps a key of at least two
    /// characters to one delimiter-free unit per key character.
    pub fn new(char_entries: Vec<(String, String)>, word_entries: Vec<(String, Vec<String>)>) -> (pt:
        PinyinTranslator)
        requires
            forall|i: int|
                0 <= i < char_entries@.len() ==> (#[trigger] char_entries@[i]).0@.len() == 1
                    && !char_entries@[i].1@.contains(SEP),
            forall|i: int|
                0 <= i < word_entries@.len() ==> {
                    let e = #[trigger] word_entries@[i];
                    &&& 2 <= e.0@.len()
                    &&& e.1@.len() == e.0@.len()
                    &&& forall|j: int|
                        0 <= j < e.1@.len() ==> !(#[trigger] e.1@[j])@.contains(SEP)
                },
        ensures
            pt.dict() == dict_of(char_entries@, word_entries@),
            pt.max_len() == max_len_of(word_entries@),
    {
        let mut entries: Vec<DictEntry> = Vec::new();
        let cn: usize = char_entries.len();
        let mut i: usize = 0;
        proof {
            assert(entry_views_of(entries@) =~~= char_entry_views(char_entries@.take(0)));
        }
        while i < cn
            invariant
                cn == char_entries@.len(),
                i <= cn,
                entry_views_of(entries@) == char_entry_views(char_entries@.take(i as int)),
            decreases cn - i,
        {
            let ghost views_before = entry_views_of(entries@);
            let key = str_chars(char_entries[i].0.as_str());
            let mut value = str_chars(char_entries[i].1.as_str());
            value.push(SEP);
            let ghost key_view = key@;
            let ghost value_view = value@;
            entries.push(DictEntry { key, value });
            i = i + 1;
            proof {
                assert(entry_views_of(entries@) =~~= views_before.push(
                    (key_view, value_view),
                ));
                assert(char_entries@.take(i as int) =~= char_entries@.take(i - 1).push(
                    char_entries@[i - 1],
                ));
                assert(char_entry_views(char_entries@.take(i as int)) =~~= char_entry_views(
                    char_entries@.take(i - 1),
                ).push((char_entries@[i - 1].0@, char_entries@[i - 1].1@.push(SEP))));
            }
        }
        proof {
            assert(char_entries@.take(cn as int) =~= char_entries@);
            assert(entry_views_of(entries@) + word_entry_views(word_entries@.take(0))
                =~= entry_views_of(entries@));
        }
        let wn: usize = word_entries.len();
        let mut w: usize = 0;
        while w < wn
            invariant
                wn == word_entries@.len(),
                w <= wn,
                entry_views_of(entries@) == char_entry_views(char_entries@)
                    + word_entry_views(word_entries@.take(w as int)),
            decreases wn - w,
        {
            let ghost views_before = entry_views_of(entries@);
            let key = str_chars(word_entries[w].0.as_str());
            let units = &word_entries[w].1;
            let un: usize = units.len();
            let mut value: Vec<char> = Vec::new();
            let mut j: usize = 0;
            proof {
                assert(value@ =~= joined_units(units.deep_view().take(0)));
            }
            while j < un
                invariant
                    un == units@.len(),
                    j <= un,
                    value@ == joined_units(units.deep_view().take(j as int)),
                decreases un - j,
            {
                let mut uc = str_chars(units[j].as_str());
                let ghost value_before = value@;
                let ghost uc_view = uc@;
                value.append(&mut uc);
                value.push(SEP);
                j = j + 1;
                proof {
                    let us = units.deep_view();
                    assert(us.take(j as int) =~= us.take(j - 1).push(us[j - 1]));
                    lemma_joined_units_push(us.take(j - 1), us[j - 1]);
                    assert(us[j - 1] == uc_view);
                    assert(value@ =~= value_before + uc_view.push(SEP));
                }
            }
            proof {
                assert(units.deep_view().take(un as int) =~= units.deep_view());
            }
            let ghost key_view = key@;
            let ghost value_view = value@;
            entries.push(DictEntry { key, value });
            w = w + 1;
            proof {
                assert(entry_views_of(entries@) =~~= views_before.push(
                    (key_view, value_view),
                ));
                assert(word_entries@.take(w as int) =~= word_entries@.take(w - 1).push(
                    word_entries@[w - 1],
                ));
                assert(word_entry_views(word_entries@.take(w as int)) =~~= word_entry_views(
                    word_entries@.take(w - 1),
                ).push((word_entries@[w - 1].0@, joined_units(
                    word_entries@[w - 1].1.deep_view(),
                ))));
                assert(char_entry_views(char_entries@) + word_entry_views(
                    word_entries@.take(w - 1),
                ).push((key_view, value_view)) =~= views_before.push((key_view, value_view)));
            }
        }
        proof {
            assert(word_entries@.take(wn as int) =~= word_entries@);
        }
        let mut ml: usize = 1;
        let mut v: usize = 0;
        while v < wn
            invariant
                wn == word_entries@.len(),
                v <= wn,
                ml as nat == max_len_of(word_entries@.take(v as int)),
            decreases wn - v,
        {
            let kl: usize = word_entries[v].0.as_str().unicode_len();
            if kl > ml {
                ml = kl;
            }
            v = v + 1;
            proof {
                assert(word_entries@.take(v as int).drop_last() =~= word_entries@.take(v - 1));
                assert(word_entries@.take(v as int).last() == word_entries@[v - 1]);
            }
        }
        proof {
            assert(word_entries@.take(wn as int) =~= word_entries@);
        }
        PinyinTranslator { max_word_len: ml, entries }
    }
}

} // verus!
