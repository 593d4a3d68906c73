use cedict::dict::Cedict;
use cedict::entry::Entry;
use cedict::load::load;

fn chars(s: &str) -> Vec<char> {
    s.chars().collect()
}

fn sample() -> Cedict {
    let source = "\
你好 你好 [ni3 hao3] /hello/hi/
可以 可以 [ke3 yi3] /can/may/
以 以 [yi3] /by means of/
楊 杨 [yang2] /poplar/surname Yang/
武 武 [wu3] /martial/
好 好 [hao3] /good/";
    Cedict::build(load(source).unwrap())
}

fn sim_string(e: &Entry) -> String {
    e.head_simplified().iter().collect()
}

#[test]
fn find_exact_round_trip() {
    let source = "你好 你好 [ni3 hao3] /hello/\n以 以 [yi3] /by/\n好 好 [hao3] /good/";
    let entries = load(source).unwrap();
    let heads: Vec<String> = entries
        .iter()
        .map(|e| e.head_simplified().iter().collect::<String>())
        .collect();
    let d = Cedict::build(entries);
    for h in &heads {
        let found = d.find_exact(h.as_str());
        assert!(found.iter().any(|e| sim_string(e) == *h));
    }
}

#[test]
fn bucket_count_equals_distinct_keys() {
    // Index keys of the sample: 你, 可, 以, 杨, 武, 好 — six distinct.
    assert_eq!(sample().len(), 6);
    // Two entries under the same key make one bucket.
    let d = Cedict::build(load("好 好 [hao3] /good/\n好看 好看 [hao3 kan4] /pretty/").unwrap());
    assert_eq!(d.len(), 1);
}

#[test]
fn find_exact_matches_whole_head_only() {
    let d = sample();
    let found = d.find_exact("你好");
    assert_eq!(found.len(), 1);
    assert_eq!(sim_string(found[0]), "你好");
    // Same bucket, different word: no match.
    assert_eq!(d.find_exact("你们").len(), 0);
    // No bucket at all: empty, not an error.
    assert_eq!(d.find_exact("不").len(), 0);
    // The empty word matches nothing.
    assert_eq!(d.find_exact("").len(), 0);
}

#[test]
fn find_exact_keeps_homographs() {
    let source = "好 好 [hao3] /good/\n好 好 [hao4] /to like/";
    let d = Cedict::build(load(source).unwrap());
    let found = d.find_exact("好");
    assert_eq!(found.len(), 2);
    let pins: Vec<String> = found
        .iter()
        .map(|e| e.pronunciation().iter().collect::<String>())
        .collect();
    assert!(pins.contains(&"hao3".to_string()));
    assert!(pins.contains(&"hao4".to_string()));
}

#[test]
fn contains_follows_find_exact() {
    let d = sample();
    assert!(d.contains("你好"));
    assert!(d.contains("武"));
    assert!(!d.contains("你们"));
    assert!(!d.contains(""));
}

#[test]
fn search_substring_scans_every_bucket() {
    let d = sample();
    let found = d.search_substring("以");
    assert!(!found.is_empty());
    for e in &found {
        let sim: String = e.head_simplified().iter().collect();
        let tra: String = e.head_traditional().iter().collect();
        assert!(sim.contains('以') || tra.contains('以'));
    }
    // Both the single character and the word that contains it are found.
    let sims: Vec<String> = found.iter().map(|e| sim_string(e)).collect();
    assert!(sims.contains(&"以".to_string()));
    assert!(sims.contains(&"可以".to_string()));
}

#[test]
fn search_substring_sees_traditional_heads() {
    let d = sample();
    // 楊 occurs only in a traditional head form.
    let found = d.search_substring("楊");
    assert_eq!(found.len(), 1);
    assert_eq!(sim_string(found[0]), "杨");
    // An untracked fragment finds nothing, without error.
    assert!(d.search_substring("絕").is_empty());
}

#[test]
fn all_single_character_entries_are_single() {
    let d = sample();
    let singles = d.all_single_character_entries();
    // 以, 杨, 武, 好 — the four one-character simplified heads.
    assert_eq!(singles.len(), 4);
    for e in &singles {
        assert!(e.is_single_char());
        assert_eq!(e.head_simplified().len(), 1);
    }
}

#[test]
fn bucket_for_returns_the_bucket_or_nothing() {
    let d = sample();
    let bucket = d.bucket_for('你');
    assert_eq!(bucket.len(), 1);
    assert_eq!(sim_string(bucket[0]), "你好");
    assert!(d.bucket_for('不').is_empty());
}

#[test]
fn bucket_keeps_insertion_order() {
    let source = "好 好 [hao3] /good/\n好看 好看 [hao3 kan4] /pretty/\n好玩 好玩 [hao3 wan2] /fun/";
    let d = Cedict::build(load(source).unwrap());
    let bucket = d.bucket_for('好');
    let sims: Vec<String> = bucket.iter().map(|e| sim_string(e)).collect();
    assert_eq!(
        sims,
        vec!["好".to_string(), "好看".to_string(), "好玩".to_string()]
    );
}

#[test]
fn lookups_work_across_many_buckets() {
    let mut source = String::new();
    for (tra, sim, pin, def) in [
        ("一", "一", "yi1", "one"),
        ("丁", "丁", "ding1", "fourth"),
        ("七", "七", "qi1", "seven"),
        ("万", "万", "wan4", "ten thousand"),
        ("三", "三", "san1", "three"),
        ("上", "上", "shang4", "up"),
        ("下", "下", "xia4", "down"),
        ("不", "不", "bu4", "not"),
        ("世", "世", "shi4", "world"),
        ("丘", "丘", "qiu1", "mound"),
    ] {
        source.push_str(&format!("{} {} [{}] /{}/\n", tra, sim, pin, def));
    }
    let d = Cedict::build(load(source.as_str()).unwrap());
    assert_eq!(d.len(), 10);
    for head in ["一", "万", "世", "丘", "不"] {
        assert!(d.contains(head));
        assert_eq!(d.find_exact(head).len(), 1);
    }
    assert!(!d.contains("中"));
    assert_eq!(d.all_single_character_entries().len(), 10);
}

#[test]
fn render_shows_every_field() {
    let d = sample();
    let found = d.find_exact("你好");
    assert_eq!(found[0].render(), "- 你好 | 你好 [ni3 hao3] \n- hello\n- hi");
    assert_eq!(chars("你好").len(), 2);
}
