use portmantout::ascii::trim_string;
use portmantout::chain::{
    append_portmantout_word, build_full_portmantout, build_portmantout, PortmantoutState,
};
use portmantout::codec::{
    create_word_and_ext_from_line, parse_u32, u32_to_dec, words_and_extensions_lines,
    words_from_lines, words_with_extensions_from_lines,
};
use portmantout::corpus::WordCorpus;
use portmantout::extensions::{find_all_extensions, find_extensions_for, word_extends};
use portmantout::options::ProgramOptions;

fn options(minimum_overlap: usize, allow_word_reuse: bool) -> ProgramOptions {
    ProgramOptions {
        minimum_overlap,
        threads: 1,
        save_extensions: false,
        verbose: false,
        max_word_chain: 100000,
        allow_word_reuse,
        use_large_words_file: false,
    }
}

fn corpus_of(words: &[&str]) -> WordCorpus {
    let mut c = WordCorpus::new();
    for w in words {
        c.push_word(w.as_bytes().to_vec());
    }
    c
}

#[test]
fn trim_removes_surrounding_whitespace() {
    assert_eq!(trim_string(&b"  cat \t\r\n".to_vec()), b"cat".to_vec());
    assert_eq!(trim_string(&b"cat".to_vec()), b"cat".to_vec());
    assert_eq!(trim_string(&b"   ".to_vec()), Vec::<u8>::new());
    assert_eq!(trim_string(&b"".to_vec()), Vec::<u8>::new());
    assert_eq!(trim_string(&b"a b".to_vec()), b"a b".to_vec());
}

#[test]
fn word_extends_finds_suffix_prefix_overlap() {
    assert!(word_extends(&b"cat".to_vec(), &b"tape".to_vec()));
    assert!(!word_extends(&b"cat".to_vec(), &b"pen".to_vec()));
    assert!(word_extends(&b"tape".to_vec(), &b"pen".to_vec()));
    // the precompute scan is case-sensitive
    assert!(!word_extends(&b"caT".to_vec(), &b"tape".to_vec()));
    assert!(!word_extends(&b"".to_vec(), &b"tape".to_vec()));
}

#[test]
fn find_extensions_for_cat_tape_pen() {
    let c = corpus_of(&["cat", "tape", "pen"]);
    let (idx, exts) = find_extensions_for(0, &c);
    assert_eq!(idx, 0);
    assert_eq!(exts, vec![1u32]);
    let (_, exts1) = find_extensions_for(1, &c);
    assert_eq!(exts1, vec![2u32]);
    let (_, exts2) = find_extensions_for(2, &c);
    assert_eq!(exts2, Vec::<u32>::new());
}

#[test]
fn find_all_extensions_populates_every_word() {
    let mut c = corpus_of(&["cat", "tape", "pen"]);
    find_all_extensions(&mut c);
    for i in 0..3 {
        assert!(c.words[i].extensions.is_some());
    }
    assert_eq!(c.words[0].extensions.as_ref().unwrap(), &vec![1u32]);
    assert_eq!(c.words[1].extensions.as_ref().unwrap(), &vec![2u32]);
    assert_eq!(c.words[2].extensions.as_ref().unwrap(), &Vec::<u32>::new());
}

#[test]
fn no_self_extension() {
    let mut c = corpus_of(&["aa", "aab", "baa"]);
    find_all_extensions(&mut c);
    for i in 0..3 {
        let exts = c.words[i].extensions.as_ref().unwrap();
        assert!(!exts.contains(&(i as u32)));
    }
}

#[test]
fn append_commits_longest_case_insensitive_overlap() {
    let opts = options(1, true);
    let mut pbuf = b"cat".to_vec();
    let ok = append_portmantout_word(&b"cat".to_vec(), &b"tape".to_vec(), &mut pbuf, &opts);
    assert!(ok);
    assert_eq!(pbuf, b"catape".to_vec());
}

#[test]
fn append_is_case_insensitive() {
    let opts = options(1, true);
    let mut pbuf = Vec::new();
    let ok = append_portmantout_word(&b"caT".to_vec(), &b"Tape".to_vec(), &mut pbuf, &opts);
    assert!(ok);
    assert_eq!(pbuf, b"ape".to_vec());
}

#[test]
fn append_fails_without_overlap_or_short_remainder() {
    let opts = options(1, true);
    let mut pbuf = Vec::new();
    assert!(!append_portmantout_word(&b"cat".to_vec(), &b"pen".to_vec(), &mut pbuf, &opts));
    assert!(pbuf.is_empty());
    // total-substring consumption is refused
    assert!(!append_portmantout_word(&b"tab".to_vec(), &b"ab".to_vec(), &mut pbuf, &opts));
    assert!(pbuf.is_empty());
    // remainder below the minimum overlap is refused
    let strict = options(3, true);
    assert!(!append_portmantout_word(&b"abc".to_vec(), &b"bcde".to_vec(), &mut pbuf, &strict));
    assert!(pbuf.is_empty());
}

#[test]
fn advance_commits_cat_to_tape() {
    let opts = options(1, false);
    let mut c = corpus_of(&["cat", "tape", "pen"]);
    find_all_extensions(&mut c);
    assert!(c.validate());
    let mut pbuf = b"cat".to_vec();
    let mut state = PortmantoutState::new(100000);
    let step = build_portmantout(0, &mut c, &mut pbuf, &mut state, &opts);
    assert_eq!(step, Some(1));
    assert_eq!(pbuf, b"catape".to_vec());
    assert!(c.words[1].used);
    assert_eq!(state.chain, 1);
}

#[test]
fn short_remainder_candidate_is_skipped_for_the_next() {
    // with minimum overlap 3 the candidate whose remainder has length 2
    // must fail, and the walk proceeds to the next candidate in cyclic order
    let opts = options(3, false);
    let mut c = corpus_of(&["abc", "bcde", "cwxyz"]);
    find_all_extensions(&mut c);
    assert_eq!(c.words[0].extensions.as_ref().unwrap(), &vec![1u32, 2u32]);
    let mut pbuf = Vec::new();
    let mut state = PortmantoutState::new(100000);
    let step = build_portmantout(0, &mut c, &mut pbuf, &mut state, &opts);
    assert_eq!(step, Some(2));
    assert_eq!(pbuf, b"wxyz".to_vec());
    assert!(!c.words[1].used);
}

#[test]
fn exhausted_extensions_terminate_before_the_cap() {
    let opts = options(1, false);
    let mut c = corpus_of(&["ab", "bc"]);
    find_all_extensions(&mut c);
    let mut pbuf = Vec::new();
    let mut state = PortmantoutState::new(100000);
    let first = build_portmantout(0, &mut c, &mut pbuf, &mut state, &opts);
    assert_eq!(first, Some(1));
    // the only extension of "ab" is now used and reuse is disallowed
    let second = build_portmantout(0, &mut c, &mut pbuf, &mut state, &opts);
    assert_eq!(second, None);
    assert_eq!(state.chain, 1);
    assert!(state.chain < state.max_chain);
}

#[test]
fn full_run_chains_cat_tape_pen() {
    let opts = options(1, false);
    let mut c = corpus_of(&["cat", "tape", "pen"]);
    find_all_extensions(&mut c);
    let mut pbuf = b"cat".to_vec();
    let mut state = PortmantoutState::new(100000);
    let appended = build_full_portmantout(0, &mut c, &mut pbuf, &mut state, &opts);
    assert_eq!(appended, vec![1usize, 2usize]);
    assert_eq!(pbuf, b"catapen".to_vec());
    assert_eq!(state.chain, 2);
}

#[test]
fn chain_counter_stops_at_the_cap() {
    // the two words extend each other, so with reuse allowed only the cap
    // can end the run
    let opts = options(1, true);
    let mut c = corpus_of(&["abab", "baba"]);
    find_all_extensions(&mut c);
    let mut pbuf = Vec::new();
    let mut state = PortmantoutState::new(5);
    let appended = build_full_portmantout(0, &mut c, &mut pbuf, &mut state, &opts);
    assert_eq!(state.chain, 5);
    assert_eq!(appended.len(), 5);
}

#[test]
fn state_counts_to_its_cap() {
    let mut s = PortmantoutState::new(2);
    assert!(!s.at_max());
    s.inc_chain();
    assert!(!s.at_max());
    s.inc_chain();
    assert!(s.at_max());
    assert_eq!(s.chain, 2);
}

#[test]
fn parse_u32_accepts_digits_and_rejects_the_rest() {
    assert_eq!(parse_u32(&b"123".to_vec()), Some(123));
    assert_eq!(parse_u32(&b"0".to_vec()), Some(0));
    assert_eq!(parse_u32(&b"+7".to_vec()), Some(7));
    assert_eq!(parse_u32(&b"4294967295".to_vec()), Some(u32::MAX));
    assert_eq!(parse_u32(&b"4294967296".to_vec()), None);
    assert_eq!(parse_u32(&b"".to_vec()), None);
    assert_eq!(parse_u32(&b"+".to_vec()), None);
    assert_eq!(parse_u32(&b"12a".to_vec()), None);
    assert_eq!(parse_u32(&b"-3".to_vec()), None);
}

#[test]
fn u32_to_dec_formats_exactly() {
    assert_eq!(u32_to_dec(0), b"0".to_vec());
    assert_eq!(u32_to_dec(7), b"7".to_vec());
    assert_eq!(u32_to_dec(105), b"105".to_vec());
    assert_eq!(u32_to_dec(u32::MAX), b"4294967295".to_vec());
}

#[test]
fn line_parses_into_word_and_extensions() {
    let w = create_word_and_ext_from_line(&b"cat 1 2".to_vec()).unwrap();
    assert_eq!(w.value, b"cat".to_vec());
    assert_eq!(w.extensions, Some(vec![1u32, 2u32]));
    assert!(!w.used);
    let bare = create_word_and_ext_from_line(&b"cat".to_vec()).unwrap();
    assert_eq!(bare.value, b"cat".to_vec());
    assert_eq!(bare.extensions, Some(Vec::new()));
}

#[test]
fn bad_extension_token_discards_the_word() {
    assert!(create_word_and_ext_from_line(&b"cat 1 x".to_vec()).is_none());
    assert!(create_word_and_ext_from_line(&b"".to_vec()).is_none());
    assert!(create_word_and_ext_from_line(&b"   ".to_vec()).is_none());
}

#[test]
fn plain_word_list_skips_blank_lines() {
    let lines: Vec<Vec<u8>> = vec![
        b"  cat ".to_vec(),
        b"".to_vec(),
        b" \t".to_vec(),
        b"dog".to_vec(),
    ];
    let c = words_from_lines(&lines);
    assert_eq!(c.words.len(), 2);
    assert_eq!(c.words[0].value, b"cat".to_vec());
    assert_eq!(c.words[1].value, b"dog".to_vec());
    assert!(c.words[0].extensions.is_none());
    assert!(!c.words[0].used);
}

#[test]
fn saving_and_reloading_keeps_every_extension_list() {
    let mut c = corpus_of(&["cat", "tape", "pen"]);
    find_all_extensions(&mut c);
    let lines = words_and_extensions_lines(&c);
    assert_eq!(lines.len(), 3);
    assert_eq!(lines[0], b"cat 1".to_vec());
    assert_eq!(lines[1], b"tape 2".to_vec());
    assert_eq!(lines[2], b"pen".to_vec());
    let reloaded = words_with_extensions_from_lines(&lines);
    assert_eq!(reloaded.words.len(), 3);
    for i in 0..3 {
        assert_eq!(reloaded.words[i].value, c.words[i].value);
        assert_eq!(reloaded.words[i].extensions, c.words[i].extensions);
        assert!(!reloaded.words[i].used);
    }
}

#[test]
fn bad_line_is_dropped_and_loading_continues() {
    let lines: Vec<Vec<u8>> = vec![
        b"cat 1".to_vec(),
        b"bad 1 oops".to_vec(),
        b"pen".to_vec(),
    ];
    let c = words_with_extensions_from_lines(&lines);
    assert_eq!(c.words.len(), 2);
    assert_eq!(c.words[0].value, b"cat".to_vec());
    assert_eq!(c.words[1].value, b"pen".to_vec());
}

#[test]
fn validate_rejects_bad_extension_indices() {
    let mut c = corpus_of(&["ab", "bc"]);
    c.set_extensions(0, vec![1]);
    c.set_extensions(1, vec![]);
    assert!(c.validate());
    let mut bad_range = corpus_of(&["ab", "bc"]);
    bad_range.set_extensions(0, vec![7]);
    assert!(!bad_range.validate());
    let mut self_ext = corpus_of(&["ab", "bc"]);
    self_ext.set_extensions(1, vec![1]);
    assert!(!self_ext.validate());
}
