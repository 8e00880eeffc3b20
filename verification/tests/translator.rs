use pinyin_translator::PinyinTranslator;
use pinyin_translator::SliceError;
use pinyin_translator::chars_to_string;
use pinyin_translator::str_chars;
use pinyin_translator::substring;
use pinyin_translator::substring_len;

const SEP: char = '\u{0007}';

fn chars(pairs: &[(&str, &str)]) -> Vec<(String, String)> {
    pairs.iter().map(|(k, v)| (k.to_string(), v.to_string())).collect()
}

fn words(entries: &[(&str, &[&str])]) -> Vec<(String, Vec<String>)> {
    entries
        .iter()
        .map(|(k, us)| (k.to_string(), us.iter().map(|u| u.to_string()).collect()))
        .collect()
}

fn sample() -> PinyinTranslator {
    PinyinTranslator::new(
        chars(&[("阿", "ā"), ("飞", "fēi"), ("网", "wang"), ("名", "ming"), ("人", "rén")]),
        words(&[("网名", &["wǎng", "míng"])]),
    )
}

#[test]
fn char_entries_translate() {
    let pt = PinyinTranslator::new(chars(&[("阿", "ā"), ("飞", "fēi")]), words(&[]));
    assert_eq!(pt.translate("阿飞".to_string()), "āfēi");
    assert_eq!(pt.translate_as_slice("阿飞".to_string()), vec!["ā", "fēi"]);
}

#[test]
fn word_entry_wins_over_char_entries() {
    let pt = sample();
    assert_eq!(pt.translate("网名".to_string()), "wǎngmíng");
    assert_eq!(pt.translate_as_slice("网名".to_string()), vec!["wǎng", "míng"]);
}

#[test]
fn word_entry_at_inner_boundary() {
    let pt = sample();
    assert_eq!(pt.translate("网名人".to_string()), "wǎngmíngrén");
    assert_eq!(
        pt.translate_as_slice("网名人".to_string()),
        vec!["wǎng", "míng", "rén"]
    );
}

#[test]
fn pass_through_ascii() {
    let pt = sample();
    assert_eq!(pt.translate("abc".to_string()), "abc");
    assert_eq!(pt.translate_as_slice("abc".to_string()), vec!["a", "b", "c"]);
}

#[test]
fn pass_through_keeps_positions() {
    let pt = sample();
    assert_eq!(pt.translate("a阿😀".to_string()), "aā😀");
    assert_eq!(pt.translate_as_slice("a阿😀".to_string()), vec!["a", "ā", "😀"]);
}

#[test]
fn empty_input_empty_output() {
    let pt = sample();
    assert_eq!(pt.translate(String::new()), "");
    assert_eq!(pt.translate_as_slice(String::new()), vec![""]);
    assert_eq!(pt.unmark_translate(String::new()), "");
}

#[test]
fn raw_translation_is_delimited() {
    let pt = sample();
    let raw = pt.translate_raw("阿飞".to_string());
    assert_eq!(raw, format!("ā{}fēi", SEP));
}

#[test]
fn no_delimiter_in_plain_outputs() {
    let pt = sample();
    let mixed = "わたし阿飞 and 网名!".to_string();
    assert!(!pt.translate(mixed.clone()).contains(SEP));
    assert!(!pt.unmark_translate(mixed.clone()).contains(SEP));
    assert!(!pt.translate(format!("a{}b", SEP)).contains(SEP));
}

#[test]
fn tokens_reconstruct_translation() {
    let pt = sample();
    let mixed = "わたし阿飞 and 网名!".to_string();
    let joined: String = pt.translate_as_slice(mixed.clone()).concat();
    assert_eq!(joined, pt.translate(mixed));
}

#[test]
fn unmark_strips_tone_marks() {
    let pt = sample();
    let marked = format!("wǎng{}míng", SEP);
    assert_eq!(pt.unmark(marked), format!("wang{}ming", SEP));
    assert_eq!(pt.unmark("āáǎàōóǒòēéěèīíǐìūúǔùǖǘǚǜ".to_string()), "aaaaooooeeeeiiiiuuuuüüüü");
}

#[test]
fn unmark_is_idempotent() {
    let pt = sample();
    let once = pt.unmark("wǎng míng ǖ x".to_string());
    let twice = pt.unmark(once.clone());
    assert_eq!(twice, once);
}

#[test]
fn unmark_translate_scenario() {
    let pt = sample();
    assert_eq!(pt.unmark_translate("网名".to_string()), "wangming");
    assert_eq!(
        pt.unmark_translate_as_slice("网名人".to_string()),
        vec!["wang", "ming", "ren"]
    );
}

#[test]
fn long_input_beyond_max_word_len() {
    let pt = sample();
    assert_eq!(pt.translate("阿阿阿阿阿".to_string()), "āāāāā");
}

#[test]
fn substring_counts_characters() {
    assert_eq!(substring("网名abc", 1, 3).unwrap(), "名a");
    assert_eq!(substring_len("网名abc", 2, 3).unwrap(), "abc");
    assert_eq!(substring("héllo", 0, 2).unwrap(), "hé");
}

#[test]
fn substring_out_of_range() {
    assert_eq!(substring("abc", 1, 4), Err(SliceError::OutOfRange));
    assert_eq!(substring("abc", 2, 1), Err(SliceError::OutOfRange));
    assert_eq!(substring_len("网名", 1, 2), Err(SliceError::OutOfRange));
}

#[test]
fn char_string_round_trip() {
    let v = str_chars("网名 abc ā😀");
    assert_eq!(v.len(), 9);
    assert_eq!(chars_to_string(&v), "网名 abc ā😀");
    assert_eq!(chars_to_string(&[]), "");
}
