//! Tests for message formatting, placeholder substitution and request
//! assembly.

use bog::configuration::{BotConfig, Config, Secrets};
use bog::models::Number;
use bog::template::{construct_body, format_prompt, BotProps, Prompt, SystemProps};
use bog::utils::format_msg;

fn sample_prompt() -> Prompt {
    Prompt {
        bot: BotProps {
            name: String::from("Bog"),
            description: String::from("{{char}} is a helpful bot talking to {{user}}."),
            scenario: String::from("{{user}} meets {{char}} in a chat room."),
        },
        system: SystemProps {
            model: String::from("some/model"),
            temperature: Number::new("0.9").unwrap(),
            max_tokens: 300,
            stream: false,
            presence_penalty: Number::new("0").unwrap(),
            frequency_penalty: Number::new("0.25").unwrap(),
            top_p: Number::new("1").unwrap(),
            top_k: 40,
            transforms: vec![String::from("middle-out")],
            min_p: Number::new("0").unwrap(),
            top_a: Number::new("0").unwrap(),
        },
    }
}

#[test]
fn mention_is_stripped_from_front() {
    assert_eq!(format_msg("<@BOTID> hello there", "<@BOTID>"), "hello there");
}

#[test]
fn mention_is_stripped_everywhere() {
    assert_eq!(
        format_msg("hi <@1> say <@1> something <@1>", "<@1>"),
        "hi  say  something"
    );
}

#[test]
fn text_without_mention_is_only_trimmed() {
    assert_eq!(format_msg("  just a message \n", "<@1>"), "just a message");
}

#[test]
fn trimming_covers_the_unicode_whitespace_set() {
    assert_eq!(format_msg("\u{000B}hi", "<@1>"), "hi");
    assert_eq!(format_msg("\u{3000}\u{00A0}ok\u{000C}\u{2028}", "<@1>"), "ok");
}

#[test]
fn stripping_repeats_until_no_mention_is_left() {
    // Removing the inner token lays bare a new one; the formatter keeps
    // going until none remains.
    assert_eq!(format_msg("<@<@B>B>", "<@B>"), "");
}

#[test]
fn empty_mention_token_leaves_text_trimmed() {
    assert_eq!(format_msg(" keep me ", ""), "keep me");
}

#[test]
fn placeholders_are_substituted() {
    assert_eq!(
        format_prompt("{{char}} is a helpful bot talking to {{user}}.", "Alice", "Bog"),
        "Bog is a helpful bot talking to Alice."
    );
}

#[test]
fn every_placeholder_occurrence_is_substituted() {
    assert_eq!(
        format_prompt("{{user}}, {{user}} and {{char}}!", "Alice", "Bog"),
        "Alice, Alice and Bog!"
    );
}

#[test]
fn template_without_placeholders_passes_through() {
    assert_eq!(format_prompt("plain text.", "Alice", "Bog"), "plain text.");
}

#[test]
fn inserted_names_are_not_rescanned() {
    assert_eq!(format_prompt("{{user}}!", "{{char}}", "Bog"), "{{char}}!");
}

#[test]
fn request_has_three_segments_in_fixed_order() {
    let prompt = sample_prompt();
    let body = construct_body(&prompt, "Alice", "<@7> hi Bog", "<@7>");
    assert_eq!(body.messages.len(), 3);
    assert_eq!(body.messages[0].role, "system");
    assert_eq!(body.messages[0].content, "Alice meets Bog in a chat room.");
    assert_eq!(body.messages[1].role, "system");
    assert_eq!(
        body.messages[1].content,
        "Bog is a helpful bot talking to Alice."
    );
    assert_eq!(body.messages[2].role, "user");
    assert_eq!(body.messages[2].content, "hi Bog");
}

#[test]
fn sampling_parameters_are_copied_verbatim() {
    let prompt = sample_prompt();
    let body = construct_body(&prompt, "Alice", "hi", "<@7>");
    assert_eq!(body.settings.model, "some/model");
    assert_eq!(body.settings.temperature.text, "0.9");
    assert_eq!(body.settings.max_tokens, 300);
    assert_eq!(body.settings.stream, false);
    assert_eq!(body.settings.presence_penalty.text, "0");
    assert_eq!(body.settings.frequency_penalty.text, "0.25");
    assert_eq!(body.settings.top_p.text, "1");
    assert_eq!(body.settings.top_k, 40);
    assert_eq!(body.settings.transforms, vec![String::from("middle-out")]);
    assert_eq!(body.settings.min_p.text, "0");
    assert_eq!(body.settings.top_a.text, "0");
}

#[test]
fn numbers_accept_the_documented_shapes() {
    assert!(Number::new("0").is_some());
    assert!(Number::new("2").is_some());
    assert!(Number::new("0.9").is_some());
    assert!(Number::new("-1.05").is_some());
    assert!(Number::new("-3").is_some());
    assert!(Number::new("10.25").is_some());
}

#[test]
fn numbers_reject_malformed_text() {
    assert!(Number::new("").is_none());
    assert!(Number::new("1.").is_none());
    assert!(Number::new(".5").is_none());
    assert!(Number::new("-").is_none());
    assert!(Number::new("--1").is_none());
    assert!(Number::new("1.2.3").is_none());
    assert!(Number::new("1e5").is_none());
    assert!(Number::new(" 1").is_none());
}

#[test]
fn configuration_holds_identity_and_credentials() {
    let c = Config {
        secrets: Secrets {
            discord_token: String::from("t1"),
            openrouter_token: String::from("t2"),
        },
        bot: BotConfig { name: String::from("Bog") },
    };
    assert_eq!(c.bot.name, "Bog");
    assert_eq!(c.secrets.discord_token, "t1");
    assert_eq!(c.secrets.openrouter_token, "t2");
}
