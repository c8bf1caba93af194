use random_word::{
    all, all_len, all_starts_with, get, get_len, get_starts_with, split_lines, Corpus,
    CorpusError, Lang,
};
use std::io::Write;

fn compress(text: &str) -> Vec<u8> {
    let mut out = Vec::new();
    {
        let mut w = brotli::CompressorWriter::new(&mut out, 4096, 5, 22);
        w.write_all(text.as_bytes()).unwrap();
    }
    out
}

fn english() -> Corpus {
    Corpus::from_text("apple\nbanana\ncherry\navocado\ngrape\napricot\nberry\n").unwrap()
}

fn strs(ws: &[String]) -> Vec<&str> {
    ws.iter().map(|w| w.as_str()).collect()
}

#[test]
fn apple_is_among_words_starting_with_a() {
    let c = english();
    let ws = all_starts_with('a', &c).unwrap();
    assert_eq!(strs(ws), vec!["apple", "avocado", "apricot"]);
}

#[test]
fn apple_is_among_words_of_five_characters() {
    let c = english();
    let ws = all_len(5, &c).unwrap();
    assert_eq!(strs(ws), vec!["apple", "grape", "berry"]);
}

#[test]
fn absent_length_gives_none() {
    let c = english();
    assert!(all_len(1000, &c).is_none());
    assert!(all_len(0, &c).is_none());
    assert!(get_len(1000, &c).is_none());
}

#[test]
fn most_common_length_gives_non_empty_bucket() {
    let c = english();
    assert!(!all_len(5, &c).unwrap().is_empty());
    assert_eq!(strs(all_len(6, &c).unwrap()), vec!["banana", "cherry"]);
    assert_eq!(strs(all_len(7, &c).unwrap()), vec!["avocado", "apricot"]);
}

#[test]
fn absent_first_character_gives_none() {
    let c = english();
    assert!(all_starts_with('z', &c).is_none());
    assert!(all_starts_with('A', &c).is_none());
    assert!(get_starts_with('z', &c).is_none());
}

#[test]
fn all_keeps_table_order() {
    let c = english();
    assert_eq!(
        strs(all(&c)),
        vec!["apple", "banana", "cherry", "avocado", "grape", "apricot", "berry"]
    );
    assert_eq!(all(&c).len(), all(&c).len());
}

#[test]
fn buckets_partition_the_table() {
    let c = english();
    let mut by_len: Vec<String> = Vec::new();
    for n in 0..20 {
        if let Some(ws) = all_len(n, &c) {
            by_len.extend(ws.iter().cloned());
        }
    }
    let mut by_start: Vec<String> = Vec::new();
    for ch in 'a'..='z' {
        if let Some(ws) = all_starts_with(ch, &c) {
            by_start.extend(ws.iter().cloned());
        }
    }
    let mut table: Vec<String> = all(&c).to_vec();
    table.sort();
    by_len.sort();
    by_start.sort();
    assert_eq!(by_len, table);
    assert_eq!(by_start, table);
}

#[test]
fn length_counts_characters_not_bytes() {
    let c = Corpus::from_text("яблоко\nгруша\nりんご\n苹果\n").unwrap();
    assert_eq!(strs(all_len(6, &c).unwrap()), vec!["яблоко"]);
    assert_eq!(strs(all_len(5, &c).unwrap()), vec!["груша"]);
    assert_eq!(strs(all_len(3, &c).unwrap()), vec!["りんご"]);
    assert_eq!(strs(all_len(2, &c).unwrap()), vec!["苹果"]);
    assert!(all_len(12, &c).is_none());
}

#[test]
fn first_character_is_a_whole_character() {
    let c = Corpus::from_text("яблоко\nягода\nりんご\n苹果\n").unwrap();
    assert_eq!(strs(all_starts_with('я', &c).unwrap()), vec!["яблоко", "ягода"]);
    assert_eq!(strs(all_starts_with('り', &c).unwrap()), vec!["りんご"]);
    assert_eq!(strs(all_starts_with('苹', &c).unwrap()), vec!["苹果"]);
}

#[test]
fn first_character_is_case_sensitive() {
    let c = Corpus::from_text("Élan\nelan\néclair\n").unwrap();
    assert_eq!(strs(all_starts_with('É', &c).unwrap()), vec!["Élan"]);
    assert_eq!(strs(all_starts_with('e', &c).unwrap()), vec!["elan"]);
    assert_eq!(strs(all_starts_with('é', &c).unwrap()), vec!["éclair"]);
}

#[test]
fn random_picks_respect_filters() {
    let c = english();
    for _ in 0..200 {
        let w = get(&c);
        assert!(all(&c).contains(w));
        let w = get_len(6, &c).unwrap();
        assert!(w == "banana" || w == "cherry");
        let w = get_starts_with('b', &c).unwrap();
        assert!(w == "banana" || w == "berry");
    }
}

#[test]
fn random_pick_is_roughly_uniform() {
    let c = english();
    let n = all(&c).len();
    let samples = 7000;
    let mut counts = vec![0usize; n];
    for _ in 0..samples {
        let w = get(&c);
        let i = all(&c).iter().position(|x| x == w).unwrap();
        counts[i] += 1;
    }
    let expected = samples as f64 / n as f64;
    let chi_squared: f64 = counts
        .iter()
        .map(|&k| (k as f64 - expected) * (k as f64 - expected) / expected)
        .sum();
    // 6 degrees of freedom: 30 lies far beyond the 0.9999 quantile.
    assert!(chi_squared < 30.0, "chi-squared = {}", chi_squared);
    assert!(counts.iter().all(|&k| k > 0));
}

#[test]
fn no_word_three_times_in_a_row() {
    let words: String = (0..500).map(|i| format!("w{}\n", i)).collect();
    let c = Corpus::from_text(&words).unwrap();
    let mut last = String::new();
    let mut run = 0;
    let mut longest = 0;
    for _ in 0..2000 {
        let w = get(&c).clone();
        if w == last {
            run += 1;
            longest = longest.max(run);
        } else {
            run = 0;
        }
        last = w;
    }
    assert!(longest < 2);
}

#[test]
fn compressed_list_round_trips() {
    let c = Corpus::from_compressed(&compress("über\nstraße\nhaus\n")).unwrap();
    assert_eq!(strs(all(&c)), vec!["über", "straße", "haus"]);
    assert_eq!(strs(all_len(6, &c).unwrap()), vec!["straße"]);
    assert_eq!(strs(all_starts_with('ü', &c).unwrap()), vec!["über"]);
}

#[test]
fn corrupt_stream_is_rejected() {
    let r = Corpus::from_compressed(&[0xff, 0xff, 0xff, 0xff, 0x00, 0x13, 0x37]);
    assert_eq!(r.err(), Some(CorpusError::Corrupt));
}

#[test]
fn non_utf8_text_is_rejected() {
    let mut out = Vec::new();
    {
        let mut w = brotli::CompressorWriter::new(&mut out, 4096, 5, 22);
        w.write_all(&[0x61, 0xff, 0xfe, 0x0a]).unwrap();
    }
    assert_eq!(Corpus::from_compressed(&out).err(), Some(CorpusError::NotUtf8));
}

#[test]
fn empty_list_is_rejected() {
    assert_eq!(Corpus::from_text("").err(), Some(CorpusError::Empty));
    assert_eq!(
        Corpus::from_compressed(&compress("")).err(),
        Some(CorpusError::Empty)
    );
}

#[test]
fn empty_line_is_rejected() {
    assert_eq!(Corpus::from_text("a\n\nb\n").err(), Some(CorpusError::EmptyWord));
    assert_eq!(Corpus::from_text("a\r\n\r\nb").err(), Some(CorpusError::EmptyWord));
    assert_eq!(Corpus::from_text("\n").err(), Some(CorpusError::EmptyWord));
}

#[test]
fn lines_are_split_like_str_lines() {
    let cases = ["", "a", "a\n", "a\nb", "a\r\nb\r\n", "a\n\nb", "a\r", "\r\n", "x\ry\n"];
    for t in cases {
        let expected: Vec<&str> = t.lines().collect();
        let got = split_lines(t);
        assert_eq!(strs(&got), expected, "text {:?}", t);
    }
}

#[test]
fn crlf_lines_lose_their_carriage_return() {
    let c = Corpus::from_text("apple\r\npear\r\n").unwrap();
    assert_eq!(strs(all(&c)), vec!["apple", "pear"]);
    assert_eq!(strs(all_len(4, &c).unwrap()), vec!["pear"]);
}

#[test]
fn language_codes() {
    let codes: Vec<&str> = [Lang::De, Lang::En, Lang::Es, Lang::Fr, Lang::Ja, Lang::Ru, Lang::Zh]
        .iter()
        .map(|l| l.code())
        .collect();
    assert_eq!(codes, vec!["de", "en", "es", "fr", "ja", "ru", "zh"]);
}
