use cedict::dict::Cedict;
use cedict::load::load;

fn dict(source: &str) -> Cedict {
    Cedict::build(load(source).unwrap())
}

#[test]
fn conversion_example() {
    // 楊 maps to 杨; 武 maps to itself.
    let d = dict("楊 杨 [yang2] /poplar/\n武 武 [wu3] /martial/");
    assert_eq!(d.to_simplified("楊武"), "杨武");
}

#[test]
fn conversion_keeps_character_count() {
    let d = dict("楊 杨 [yang2] /poplar/\n個 个 [ge4] /classifier/");
    for text in ["", "楊", "abc 楊 xyz", "個個個", "已经简化", "mixed 個 text"] {
        assert_eq!(
            d.to_simplified(text).chars().count(),
            text.chars().count()
        );
    }
}

#[test]
fn conversion_is_idempotent_on_stable_dictionaries() {
    let d = dict("楊 杨 [yang2] /poplar/\n武 武 [wu3] /martial/\n個 个 [ge4] /classifier/");
    for text in ["楊武個", "武楊", "plain text", "杨 already simplified"] {
        let once = d.to_simplified(text);
        let twice = d.to_simplified(once.as_str());
        assert_eq!(twice, once);
    }
}

#[test]
fn untracked_characters_pass_through() {
    let d = dict("楊 杨 [yang2] /poplar/");
    assert_eq!(d.to_simplified("hello, 世界! 123"), "hello, 世界! 123");
    assert_eq!(d.to_simplified(""), "");
    // Already-simplified characters are not traditional heads here.
    assert_eq!(d.to_simplified("杨"), "杨");
}

#[test]
fn only_single_character_entries_convert() {
    // A multi-character entry mentioning 楊 must not drive conversion.
    let d = dict("楊樹 杨树 [yang2 shu4] /poplar tree/");
    assert_eq!(d.to_simplified("楊樹"), "楊樹");
    // A single-character entry whose traditional head has two characters
    // cannot match any one character either.
    let d2 = dict("樹木 树 [shu4] /tree/");
    assert_eq!(d2.to_simplified("樹"), "樹");
    assert_eq!(d2.to_simplified("樹木"), "樹木");
}

#[test]
fn first_matching_entry_in_key_order_decides() {
    // Two single-character entries share the traditional head 楊. Buckets
    // are ordered by the simplified key: 木 comes before 杨, so the entry
    // keyed 木 decides.
    let d = dict("楊 杨 [yang2] /poplar/\n楊 木 [mu4] /wood/");
    assert_eq!(d.to_simplified("楊"), "木");
}
