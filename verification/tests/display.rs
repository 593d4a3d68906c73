use cedict::chat::{AiChat, ChatQuestions};
use cedict::config::{AiChatConfiguration, Keys};
use cedict::entry::Entry;

fn chars(s: &str) -> Vec<char> {
    s.chars().collect()
}

fn entry(sim: &str, tra: &str, pin: &str, def: &str, level: Option<u32>) -> Entry {
    Entry::from_parts(chars(sim), chars(tra), chars(pin), chars(def), level).unwrap()
}

#[test]
fn render_with_level_tag() {
    let e = entry("你好", "你好", "ni3 hao3", "hello/hi", Some(1));
    assert_eq!(e.render(), "- 你好 | 你好 [ni3 hao3] HSK1\n- hello\n- hi");
}

#[test]
fn render_without_level_tag() {
    let e = entry("好", "好", "hao3", "good", None);
    assert_eq!(e.render(), "- 好 | 好 [hao3] \n- good");
}

#[test]
fn render_multi_digit_level() {
    let e = entry("字", "字", "zi4", "character", Some(60000));
    assert_eq!(e.render(), "- 字 | 字 [zi4] HSK60000\n- character");
}

#[test]
fn senses_split_on_the_separator() {
    assert_eq!(
        entry("好", "好", "hao3", "good/well/proper", None).senses(),
        vec!["good".to_string(), "well".to_string(), "proper".to_string()]
    );
    assert_eq!(
        entry("好", "好", "hao3", "", None).senses(),
        vec!["".to_string()]
    );
}

#[test]
fn ai_chat_names_round_trip() {
    for ai in AiChat::all() {
        assert_eq!(AiChat::from_name(ai.as_str()), ai);
    }
    assert_eq!(AiChat::from_name("ChatGPT"), AiChat::ChatGPT);
    assert_eq!(AiChat::from_name("Ollama"), AiChat::Ollama);
    // An unknown name falls back to the first back-end.
    assert_eq!(AiChat::from_name("nonsense"), AiChat::ChatGPT);
    assert_eq!(AiChat::default(), AiChat::ChatGPT);
    assert_eq!(AiChat::all().len(), 4);
}

#[test]
fn prompts_carry_the_question_and_the_word() {
    let p = ChatQuestions::MeaningWord.to_prompt(&AiChat::Ollama, "你好");
    assert_eq!(p.chat, AiChat::Ollama);
    assert_eq!(
        p.prompt,
        "Explain the meaning and the usage of the word:  你好"
    );
    let q = ChatQuestions::Example.to_prompt(&AiChat::ChatGPT, "好");
    assert_eq!(q.prompt, "Give some example sentences using the word:  好");
    let s = ChatQuestions::Synonyms.to_prompt(&AiChat::Grok, "好");
    assert_eq!(s.prompt, "这个词的同义词是什么？: 好");
}

#[test]
fn configuration_defaults_are_empty() {
    let k = Keys::default();
    assert_eq!(k.elevenlabs, "");
    assert_eq!(k.deepl, "");
    let c = AiChatConfiguration::default();
    assert_eq!(c.name, "");
    assert_eq!(c.key, "");
    assert_eq!(c.url, "");
    assert_eq!(c.model, "");
}
