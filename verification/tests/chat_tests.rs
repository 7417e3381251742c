//! Chat-side helpers: message types, API labels, GUID detection, the
//! context cutoff, name generation and prompt assembly.

use dewey::chat::{build_system_prompt, cutoff_messages, generate_name, is_valid_guid};
use dewey::error::StoreError;
use dewey::hnsw::{Filter, FilterComparator};
use dewey::text::render_i64_string;
use dewey::types::{
    API, AnthropicModel, Conversation, GroqModel, Message, MessageType, OpenAIModel,
};

fn msg(content: &str) -> Message {
    Message {
        id: None,
        message_type: MessageType::User,
        content: content.to_string(),
        api: API::OpenAI(OpenAIModel::GPT4o),
        system_prompt: String::new(),
        sequence: 0,
        date_created: String::new(),
    }
}

#[test]
fn message_type_labels_and_ids() {
    assert_eq!(MessageType::System.to_string(), "system");
    assert_eq!(MessageType::User.to_string(), "user");
    assert_eq!(MessageType::Assistant.to_string(), "assistant");
    assert_eq!(MessageType::Developer.to_string(), "developer");
    assert_eq!(MessageType::System.id(), 0);
    assert_eq!(MessageType::User.id(), 1);
    assert_eq!(MessageType::Assistant.id(), 2);
    // developer messages are stored under the assistant id
    assert_eq!(MessageType::Developer.id(), 2);
    assert_eq!(MessageType::from_id(0).unwrap(), MessageType::System);
    assert_eq!(MessageType::from_id(1).unwrap(), MessageType::User);
    assert_eq!(MessageType::from_id(2).unwrap(), MessageType::Assistant);
    assert_eq!(MessageType::from_id(3).unwrap(), MessageType::Developer);
    assert!(MessageType::from_id(4).is_err());
    assert!(MessageType::from_id(-1).is_err());
}

#[test]
fn api_labels_round_trip() {
    let cases = [
        API::OpenAI(OpenAIModel::GPT4o),
        API::OpenAI(OpenAIModel::GPT4oMini),
        API::OpenAI(OpenAIModel::O1Preview),
        API::OpenAI(OpenAIModel::O1Mini),
        API::Groq(GroqModel::LLaMA70B),
        API::Anthropic(AnthropicModel::Claude3Opus),
        API::Anthropic(AnthropicModel::Claude3Sonnet),
        API::Anthropic(AnthropicModel::Claude3Haiku),
        API::Anthropic(AnthropicModel::Claude35Sonnet),
        API::Anthropic(AnthropicModel::Claude35Haiku),
    ];
    for api in cases {
        let (p, m) = api.to_strings();
        assert_eq!(API::from_strings(&p, &m).unwrap(), api);
    }
    // the late sonnet writes the same wire label as the earlier one, so
    // it reads back as that one
    let (p, m) = API::Anthropic(AnthropicModel::Claude37Sonnet).to_strings();
    assert_eq!(m, "anthropic-sonnet-3-5");
    assert_eq!(
        API::from_strings(&p, &m).unwrap(),
        API::Anthropic(AnthropicModel::Claude35Sonnet)
    );
    assert!(API::from_strings("openai", "gpt-5").is_err());
    assert!(API::from_strings("acme", "gpt-4o").is_err());
}

#[test]
fn guid_shapes() {
    assert!(is_valid_guid("0123abcd-0123-4567-89ab-0123456789ab"));
    assert!(is_valid_guid("ABCDEF01-2345-6789-abcd-ef0123456789"));
    assert!(!is_valid_guid("0123abcd-0123-4567-89ab-0123456789a")); // 35 chars
    assert!(!is_valid_guid("0123abcd0123-4567-89ab-0123456789abc")); // dash misplaced
    assert!(!is_valid_guid("0123abcd-0123-4567-89ab-0123456789ag")); // non-hex
    assert!(!is_valid_guid("hello"));
}

#[test]
fn cutoff_keeps_recent_messages() {
    let messages = vec![msg("one"), msg("two"), msg(""), msg("three")];
    let (total, kept) = cutoff_messages(&messages, None);
    // empty contents add nothing
    assert_eq!(total, 3 + 3 + 5);
    // all messages fit the window, so the cutoff walked to the front
    assert_eq!(kept.len(), 4);
    let big = "x".repeat(130000);
    let messages2 = vec![msg("early"), msg(&big)];
    let (total2, kept2) = cutoff_messages(&messages2, None);
    assert_eq!(total2, 130000 + 5);
    // the oversized tail keeps the cutoff at the last index
    assert_eq!(kept2.len(), 1);
    assert_eq!(kept2[0].content, big);
    // caller-supplied token weights replace the default byte counts
    let messages3 = vec![msg("aa"), msg("bb")];
    let (total3, kept3) = cutoff_messages(&messages3, Some(&vec![7, 130000]));
    assert_eq!(total3, 130007);
    assert_eq!(kept3.len(), 1);
    assert_eq!(kept3[0].content, "bb");
    // the default weight is the UTF-8 byte count, not the character count
    let messages4 = vec![msg("héllo")];
    let (total4, kept4) = cutoff_messages(&messages4, None);
    assert_eq!(total4, 6);
    assert_eq!(kept4.len(), 1);
}

#[test]
fn generate_name_sanitizes() {
    let mut convo = Conversation {
        id: None,
        name: "0123abcd-0123-4567-89ab-0123456789ab".to_string(),
        messages: vec![msg("hi")],
    };
    generate_name(&mut convo, "My chat: a/b?*");
    assert_eq!(convo.name, "My chat_ a_b__");
    // a real name is left alone
    let mut named = Conversation { id: None, name: "Weekly sync".to_string(), messages: vec![] };
    generate_name(&mut named, "whatever");
    assert_eq!(named.name, "Weekly sync");
}

#[test]
fn filters_parse_and_compare() {
    let f = Filter::from_string(&"eq lang:en".to_string()).unwrap();
    assert_eq!(f.comparator, FilterComparator::Equal);
    assert_eq!(f.value, "lang:en");
    assert!(f.compare("lang:en"));
    assert!(!f.compare("lang:fr"));
    let g = Filter::from_string(&"  ne  topic:x ".to_string()).unwrap();
    assert_eq!(g.comparator, FilterComparator::NotEqual);
    assert!(g.compare("topic:y"));
    assert!(!g.compare("topic:x"));
    match Filter::from_string(&"gt lang:en".to_string()) {
        Err(StoreError::InvalidArgument) => {}
        other => panic!("unexpected: {:?}", other.map(|f| f.value)),
    }
    assert!(Filter::from_string(&"eq".to_string()).is_err());
    assert!(Filter::from_string(&"eq a b".to_string()).is_err());
}

#[test]
fn system_prompt_embeds_references() {
    let refs = vec!["first reference".to_string(), "second".to_string()];
    let prompt = build_system_prompt(100, &refs);
    assert!(prompt.starts_with("<systemPrompt><objective>"));
    assert!(prompt.ends_with("</references></systemPrompt>"));
    assert!(prompt.contains("<reference>first reference</reference>"));
    assert!(prompt.contains("<reference>second</reference>"));
    // long references are truncated to 512 characters
    let long = "y".repeat(600);
    let prompt2 = build_system_prompt(0, &vec![long]);
    assert!(prompt2.contains(&"y".repeat(512)));
    assert!(!prompt2.contains(&"y".repeat(513)));
}

#[test]
fn signed_decimal_rendering() {
    assert_eq!(render_i64_string(0), "0");
    assert_eq!(render_i64_string(907), "907");
    assert_eq!(render_i64_string(-33), "-33");
    assert_eq!(render_i64_string(i64::MIN), "-9223372036854775808");
}
