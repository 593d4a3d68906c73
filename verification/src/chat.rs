//! The prompt model handed to the chat back-ends: which back-end to ask,
//! and the canned questions about a selected word.

use vstd::prelude::*;
use vstd::string::StringExecFns;

use crate::text::{chars_eq, str_chars};

verus! {

/// The chat back-ends a prompt can be addressed to.
#[derive(Debug, Clone, Copy, PartialEq, Eq, Structural)]
pub enum AiChat {
    ChatGPT,
    Deepseek,
    Grok,
    Ollama,
}

impl Default for AiChat {
    /// The first back-end.
    fn default() -> (r: Self)
        ensures
            r == AiChat::ChatGPT,
    {
        AiChat::ChatGPT
    }
}

impl AiChat {
    /// The name of the back-end.
    pub open spec fn name_spec(self) -> Seq<char> {
        match self {
            AiChat::ChatGPT => "ChatGPT"@,
            AiChat::Deepseek => "Deepseek"@,
            AiChat::Grok => "Grok"@,
            AiChat::Ollama => "Ollama"@,
        }
    }

    /// The name of the back-end.
    pub fn as_str(&self) -> (r: &'static str)
        ensures
            r@ == self.name_spec(),
    {
        match self {
            AiChat::ChatGPT => "ChatGPT",
            AiChat::Deepseek => "Deepseek",
            AiChat::Grok => "Grok",
            AiChat::Ollama => "Ollama",
        }
    }

    /// Every back-end, in order.
    pub fn all() -> (r: Vec<AiChat>)
        ensures
            r@ == seq![AiChat::ChatGPT, AiChat::Deepseek, AiChat::Grok, AiChat::Ollama],
    {
        let mut v: Vec<AiChat> = Vec::new();
        v.push(AiChat::ChatGPT);
        v.push(AiChat::Deepseek);
        v.push(AiChat::Grok);
        v.push(AiChat::Ollama);
        proof {
            assert(v@ =~= seq![AiChat::ChatGPT, AiChat::Deepseek, AiChat::Grok, AiChat::Ollama]);
        }
        v
    }

    /// The back-end a name denotes: the first one where none matches.
    pub open spec fn from_name_spec(s: Seq<char>) -> AiChat {
        if s == "ChatGPT"@ {
            AiChat::ChatGPT
        } else if s == "Deepseek"@ {
            AiChat::Deepseek
        } else if s == "Grok"@ {
            AiChat::Grok
        } else if s == "Ollama"@ {
            AiChat::Ollama
        } else {
            AiChat::ChatGPT
        }
    }

    /// Reads a back-end from its name; an unknown name gives the first
    /// back-end.
    pub fn from_name(s: &str) -> (r: AiChat)
        ensures
            r == AiChat::from_name_spec(s@),
    {
        let sc = str_chars(s);
        if chars_eq(&sc, &str_chars("ChatGPT")) {
            AiChat::ChatGPT
        } else if chars_eq(&sc, &str_chars("Deepseek")) {
            AiChat::Deepseek
        } else if chars_eq(&sc, &str_chars("Grok")) {
            AiChat::Grok
        } else if chars_eq(&sc, &str_chars("Ollama")) {
            AiChat::Ollama
        } else {
            AiChat::ChatGPT
        }
    }
}

/// One question on its way to a chat back-end.
pub struct ChatPrompt {
    pub chat: AiChat,
    pub prompt: String,
}

/// What a streaming chat connection reports back, one piece at a time.
#[derive(Debug, Clone)]
pub enum Event {
    MessageReceived(String),
    Error(String),
    End,
}

/// The canned questions that can be asked about a selected word.
#[derive(Debug, Clone, PartialEq, Eq, Structural)]
pub enum ChatQuestions {
    MeaningWord,
    Example,
    Synonyms,
}

impl ChatQuestions {
    /// The wording that precedes the selected word in the prompt.
    pub open spec fn prompt_prefix_spec(self) -> Seq<char> {
        match self {
            ChatQuestions::MeaningWord => "Explain the meaning and the usage of the word: "@,
            ChatQuestions::Example => "Give some example sentences using the word: "@,
            ChatQuestions::Synonyms => "\u{8fd9}\u{4e2a}\u{8bcd}\u{7684}\u{540c}\u{4e49}\u{8bcd}\u{662f}\u{4ec0}\u{4e48}\u{ff1f}:"@,
        }
    }

    /// The wording that precedes the selected word in the prompt.
    pub fn prompt_prefix(&self) -> (r: String)
        ensures
            r@ == self.prompt_prefix_spec(),
    {
        String::from_str(
            match self {
                ChatQuestions::MeaningWord => "Explain the meaning and the usage of the word: ",
                ChatQuestions::Example => "Give some example sentences using the word: ",
                ChatQuestions::Synonyms => "\u{8fd9}\u{4e2a}\u{8bcd}\u{7684}\u{540c}\u{4e49}\u{8bcd}\u{662f}\u{4ec0}\u{4e48}\u{ff1f}:",
            },
        )
    }

    /// The full prompt for asking `ai` this question about the word `w`:
    /// the question's wording, a space, and the word.
    pub fn to_prompt(&self, ai: &AiChat, w: &str) -> (r: ChatPrompt)
        ensures
            r.chat == *ai,
            r.prompt@ == self.prompt_prefix_spec() + " "@ + w@,
    {
        let mut p = self.prompt_prefix();
        p.append(" ");
        p.append(w);
        ChatPrompt { chat: *ai, prompt: p }
    }
}

} // verus!
