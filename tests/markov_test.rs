use markov::{gen, ingest, split, Chain, MarkovErr};

fn strings(ws: &[&str]) -> Vec<String> {
    ws.iter().map(|w| w.to_string()).collect()
}

#[test]
fn test_one_word() {
    assert_eq!(gen("hello", "hello", 1), Ok(vec!["hello".to_string()]));
}

#[test]
fn test_two_words() {
    assert_eq!(gen("hello bob", "hello", 2), Ok(vec!["hello".to_string(), "bob".to_string()]));
}

#[test]
fn test_split() {
    assert_eq!(split("Hello, world!"), vec!["hello".to_string(), "world".to_string()]);
}

#[test]
fn test_new() {
    let chain = Chain::new();
    assert_eq!(chain.node_count(), 0);
    assert_eq!(chain.edge_count(), 0);
}

#[test]
fn test_see_one() {
    let mut chain = Chain::new();
    chain.see("hello", "bob");
    assert_eq!(chain.out_count("hello"), 1);
    assert_eq!(chain.weight("hello", "bob"), 1);
}

#[test]
fn test_see_two() {
    let mut chain = Chain::new();
    chain.see("australian", "koala");
    chain.see("australian", "kangaroo");
    assert_eq!(chain.out_count("australian"), 2);
    assert_eq!(chain.weight("australian", "koala"), 1);
    assert_eq!(chain.weight("australian", "kangaroo"), 1);
}

#[test]
fn test_next() {
    let mut chain = Chain::new();
    chain.see("canadian", "hockey");
    assert_eq!(chain.next("canadian"), Ok("hockey".to_string()));
}

#[test]
fn test_gen() {
    let input = "Welcome to the jungle we've got fun and games We got everything you want honey, 
    we know the names We are the people that can find whatever you may need If you got the money, honey we got your disease.";

    let res = gen(input, "welcome", 50);

    println!("{}", res.unwrap().join(" "));
}

#[test]
fn wrap_around_cycle_is_forced() {
    assert_eq!(gen("a b c", "a", 4), Ok(strings(&["a", "b", "c", "a"])));
}

#[test]
fn empty_corpus_fails_on_first_sample() {
    assert_eq!(gen("", "x", 2), Err(MarkovErr::NotSeen { w: "x".to_string() }));
}

#[test]
fn unseen_start_fails() {
    assert_eq!(gen("a b", "z", 2), Err(MarkovErr::NotSeen { w: "z".to_string() }));
}

#[test]
fn zero_length_is_empty() {
    assert_eq!(gen("", "x", 0), Ok(vec![]));
    assert_eq!(gen("a b", "a", 0), Ok(vec![]));
    assert_eq!(gen("a b", "a", -3), Ok(vec![]));
}

#[test]
fn length_one_never_samples() {
    assert_eq!(gen("", "zebra", 1), Ok(strings(&["zebra"])));
}

#[test]
fn generation_length_and_start() {
    let corpus = "the cat sat on the mat and the dog sat on the cat";
    for length in 0..30 {
        let out = gen(corpus, "the", length).unwrap();
        assert_eq!(out.len(), length as usize);
        if length > 0 {
            assert_eq!(out[0], "the");
        }
        let toks = split(corpus);
        for k in 1..out.len() {
            let found = (0..toks.len())
                .any(|i| toks[i] == out[k - 1] && toks[(i + 1) % toks.len()] == out[k]);
            assert!(found);
        }
    }
}

#[test]
fn first_token_reaches_every_length() {
    let corpus = "one two three two one four";
    let first = split(corpus)[0].clone();
    for length in 0..40 {
        assert!(gen(corpus, &first, length).is_ok());
    }
}

#[test]
fn split_drops_and_folds() {
    assert_eq!(split("  Abc\tDEF 12gh\u{e9}i  !! x-y "), strings(&["abcdef", "ghi", "xy"]));
    assert_eq!(split(""), Vec::<String>::new());
    assert_eq!(split("   ,,, 123 "), Vec::<String>::new());
    assert_eq!(split("\u{212a}elvin"), strings(&["elvin"]));
}

#[test]
fn split_alphabet() {
    let s = "Mixed CASE, digits 0123, tabs\tand\nnewlines, \u{fc}mlaut, caf\u{e9}!";
    let toks = split(s);
    assert!(!toks.is_empty());
    for t in &toks {
        assert!(!t.is_empty());
        assert!(t.chars().all(|c| c.is_ascii_lowercase()));
    }
}

#[test]
fn split_idempotent() {
    for s in ["Hello, world!", "  a  B c  ", "", "x1y2 z", "Tab\tSeparated\nLines"] {
        let once = split(s);
        assert_eq!(split(&once.join(" ")), once);
    }
}

#[test]
fn ingest_counts_pairs_with_wrap_around() {
    let chain = ingest(&strings(&["a", "b", "a", "c"]));
    assert_eq!(chain.out_count("a"), 2);
    assert_eq!(chain.out_count("b"), 1);
    assert_eq!(chain.out_count("c"), 1);
    assert_eq!(chain.weight("a", "b"), 1);
    assert_eq!(chain.weight("a", "c"), 1);
    assert_eq!(chain.weight("b", "a"), 1);
    assert_eq!(chain.weight("c", "a"), 1);
    assert_eq!(chain.weight("a", "a"), 0);
    assert_eq!(chain.node_count(), 3);
    assert_eq!(chain.edge_count(), 4);
}

#[test]
fn ingest_single_token_self_loop() {
    let chain = ingest(&strings(&["hello"]));
    assert_eq!(chain.out_count("hello"), 1);
    assert_eq!(chain.weight("hello", "hello"), 1);
    let empty = ingest(&vec![]);
    assert_eq!(empty.node_count(), 0);
    assert_eq!(empty.edge_count(), 0);
}

#[test]
fn see_repeated_pair() {
    let mut chain = Chain::new();
    chain.see("a", "b");
    chain.see("a", "b");
    chain.see("a", "a");
    assert_eq!(chain.out_count("a"), 3);
    assert_eq!(chain.weight("a", "b"), 2);
    assert_eq!(chain.weight("a", "a"), 1);
    assert_eq!(chain.out_count("b"), 0);
    assert_eq!(chain.node_count(), 1);
    assert_eq!(chain.edge_count(), 2);
}

#[test]
fn pick_slots_match_weights() {
    let mut chain = Chain::new();
    for _ in 0..3 {
        chain.see("a", "b");
    }
    chain.see("a", "c");
    let picks: Vec<String> = (0..4).map(|r| chain.pick("a", r)).collect();
    assert_eq!(picks.iter().filter(|w| *w == "b").count(), 3);
    assert_eq!(picks.iter().filter(|w| *w == "c").count(), 1);
}

#[test]
fn next_frequencies_follow_weights() {
    let mut chain = Chain::new();
    chain.see("a", "b");
    chain.see("a", "b");
    chain.see("a", "c");
    let draws = 6000;
    let mut bs = 0;
    for _ in 0..draws {
        match chain.next("a").unwrap().as_str() {
            "b" => bs += 1,
            "c" => {}
            other => panic!("unexpected successor {}", other),
        }
    }
    let freq = bs as f64 / draws as f64;
    assert!((freq - 2.0 / 3.0).abs() < 0.05);
}

#[test]
fn next_on_unseen_token() {
    let mut chain = Chain::new();
    chain.see("a", "b");
    assert_eq!(chain.next("b"), Err(MarkovErr::NotSeen { w: "b".to_string() }));
    assert_eq!(chain.next("q"), Err(MarkovErr::NotSeen { w: "q".to_string() }));
}
