use lib::items::{
    is_tool_output, ContentItem, FunctionCallOutputContentItem, FunctionCallOutputPayload,
    ReasoningItemContent, ResponseItem,
};
use lib::notices::IMAGE_RESIZE_NOTICE_START;
use lib::prompt_copy::{CodexHarnessMetadata, ResponseItemEnvelope};
use lib::sanitize::{sanitize_prompt_history, sanitize_prompt_history_annotated};

fn reasoning(plain: bool, encrypted: bool) -> ResponseItem {
    ResponseItem::Reasoning {
        id: Some("reasoning".to_owned()),
        summary: vec![],
        content: if plain {
            Some(vec![ReasoningItemContent::ReasoningText { text: "private".to_owned() }])
        } else {
            None
        },
        encrypted_content: if encrypted { Some("ciphertext".to_owned()) } else { None },
    }
}

fn message(role: &str, text: &str) -> ResponseItem {
    ResponseItem::Message {
        id: Some("message".to_owned()),
        role: role.to_owned(),
        content: vec![ContentItem::InputText { text: text.to_owned() }],
        phase: None,
    }
}

fn resize_notice() -> ResponseItem {
    message(
        "developer",
        "\n<image_resize_notice>\nImage 1 of 1 in the preceding tool output was resized from \
         1414x2000 to 1334x1888 pixels.\n</image_resize_notice>\n",
    )
}

fn function_call(call_id: &str) -> ResponseItem {
    ResponseItem::FunctionCall {
        id: None,
        name: "view_image".to_owned(),
        namespace: None,
        arguments: "{\"path\":\"fixture\"}".to_owned(),
        call_id: call_id.to_owned(),
    }
}

fn text_output(call_id: &str, text: &str) -> ResponseItem {
    ResponseItem::FunctionCallOutput {
        id: None,
        call_id: Some(call_id.to_owned()),
        name: Some("view_image".to_owned()),
        namespace: None,
        output: FunctionCallOutputPayload::from_text(text.to_owned()),
    }
}

fn image_output(call_id: &str) -> ResponseItem {
    ResponseItem::FunctionCallOutput {
        id: None,
        call_id: Some(call_id.to_owned()),
        name: Some("view_image".to_owned()),
        namespace: None,
        output: FunctionCallOutputPayload::from_content_items(vec![
            FunctionCallOutputContentItem::InputImage {
                image_url: "data:image/png;base64,AAAA".to_owned(),
                detail: None,
            },
        ]),
    }
}

fn output_text(item: &ResponseItem) -> Option<String> {
    let ResponseItem::FunctionCallOutput { output, .. } = item else {
        return None;
    };
    if let Some(text) = output.text_content() {
        return Some(text.to_owned());
    }
    let parts = output.content_items()?;
    let mut joined = String::new();
    for part in parts {
        if let FunctionCallOutputContentItem::InputText { text } = part {
            joined.push_str(text);
        }
    }
    Some(joined)
}

fn assert_transport_shape(items: &[ResponseItem]) {
    for (index, item) in items.iter().enumerate() {
        if is_tool_output(item) {
            if let Some(previous) = index.checked_sub(1).and_then(|i| items.get(i)) {
                assert!(
                    !matches!(previous, ResponseItem::Message { .. }),
                    "a message item must never directly precede a tool output"
                );
            }
        }
    }
    let mut calls = std::collections::HashSet::new();
    let mut outputs = std::collections::HashSet::new();
    for item in items {
        match item {
            ResponseItem::FunctionCall { call_id, .. } => {
                assert!(!calls.contains(call_id), "call ids must stay unique inside a prompt copy");
                calls.insert(call_id);
            }
            ResponseItem::FunctionCallOutput { call_id, .. } => {
                outputs.insert(call_id.clone());
            }
            _ => {}
        }
    }
    for call_id in calls {
        assert!(
            outputs.contains(&Some(call_id.to_owned())),
            "every function call must keep a matching output"
        );
    }
}

#[test]
fn openai_keeps_encrypted_only_reasoning() {
    let keep = message("user", "keep");
    assert_eq!(
        sanitize_prompt_history(
            "openai",
            vec![reasoning(true, false), keep.clone(), reasoning(false, true)]
        ),
        vec![keep, reasoning(false, true)]
    );
}

#[test]
fn openai_rejects_hybrid_reasoning() {
    assert!(sanitize_prompt_history("openai", vec![reasoning(true, true)]).is_empty());
}

#[test]
fn openai_provider_identity_is_case_insensitive() {
    assert_eq!(
        sanitize_prompt_history("OpenAI", vec![reasoning(false, true)]),
        vec![reasoning(false, true)]
    );
}

#[test]
fn third_party_keeps_plaintext_and_rejects_encrypted() {
    assert_eq!(
        sanitize_prompt_history("kimi", vec![reasoning(false, true), reasoning(true, true)]),
        vec![reasoning(true, true)]
    );
}

#[test]
fn annotated_items_preserve_metadata_and_order() {
    let keep = ResponseItemEnvelope::new(message("user", "keep"));
    assert_eq!(
        sanitize_prompt_history_annotated(
            "openai",
            vec![
                ResponseItemEnvelope::new(reasoning(true, false)),
                keep.clone(),
                ResponseItemEnvelope::new(reasoning(false, true))
            ]
        ),
        vec![keep, ResponseItemEnvelope::new(reasoning(false, true))]
    );
}

#[test]
fn non_reasoning_items_and_tool_pair_are_preserved_exactly() {
    let function_call = function_call("call-1");
    let function_output = text_output("call-1", "fixture result");
    let keep = vec![message("user", "keep"), function_call, function_output];
    let mut input = vec![reasoning(true, false)];
    input.extend(keep.clone());
    assert_eq!(sanitize_prompt_history("openai", input), keep);
}

#[test]
fn openai_prompt_copy_keeps_notice_messages_untouched() {
    let input = vec![
        function_call("call-a"),
        function_call("call-b"),
        image_output("call-a"),
        resize_notice(),
        image_output("call-b"),
    ];
    assert_eq!(sanitize_prompt_history("openai", input.clone()), input);
}

#[test]
fn deepseek_prompt_copy_folds_notice_into_preceding_output() {
    let normalized = sanitize_prompt_history(
        "deepseek",
        vec![
            function_call("call-a"),
            function_call("call-b"),
            image_output("call-a"),
            resize_notice(),
            image_output("call-b"),
        ],
    );
    assert_transport_shape(&normalized);
    assert_eq!(normalized.len(), 4);
    assert!(
        output_text(&normalized[2]).is_some_and(|text| text.contains(IMAGE_RESIZE_NOTICE_START)),
        "the notice must stay attached to the output it describes"
    );
}

#[test]
fn notice_directly_before_its_output_is_relocated() {
    let normalized = sanitize_prompt_history(
        "deepseek",
        vec![function_call("call-a"), resize_notice(), image_output("call-a")],
    );
    assert_transport_shape(&normalized);
    assert_eq!(normalized.len(), 3);
    // The notice cannot be folded into a call, so it moves in front of the call
    // instead of staying between the call and its output.
    assert!(matches!(normalized[0], ResponseItem::Message { .. }));
    assert_eq!(normalized[1], function_call("call-a"));
    assert_eq!(normalized[2], image_output("call-a"));
}

#[test]
fn user_message_between_outputs_is_moved_off_the_output() {
    let normalized = sanitize_prompt_history(
        "deepseek",
        vec![
            function_call("call-a"),
            function_call("call-b"),
            text_output("call-a", "a"),
            message("user", "steer"),
            text_output("call-b", "b"),
        ],
    );
    assert_transport_shape(&normalized);
    assert_eq!(normalized.len(), 5);
    // The steering message moves in front of the call whose output it preceded.
    assert_eq!(normalized[0], function_call("call-a"));
    assert_eq!(normalized[1], message("user", "steer"));
    assert_eq!(normalized[2], function_call("call-b"));
}

/// Developer and user history plus the assistant turn text precede the call
/// batch and must stay there. Only the resize notices fold into the outputs
/// they describe.
#[test]
fn history_messages_before_the_call_batch_stay_in_place() {
    let normalized = sanitize_prompt_history(
        "deepseek",
        vec![
            message("developer", "<skills_instructions>"),
            message("user", "<environment_context>"),
            message("user", "review all four pages"),
            message("assistant", "I'll load all four images in parallel."),
            function_call("call-a"),
            function_call("call-b"),
            image_output("call-a"),
            resize_notice(),
            image_output("call-b"),
            resize_notice(),
        ],
    );
    assert_transport_shape(&normalized);
    assert_eq!(normalized.len(), 8);
    assert_eq!(normalized[0], message("developer", "<skills_instructions>"));
    assert_eq!(normalized[1], message("user", "<environment_context>"));
    assert_eq!(normalized[2], message("user", "review all four pages"));
    assert_eq!(normalized[3], message("assistant", "I'll load all four images in parallel."));
    assert_eq!(normalized[4], function_call("call-a"));
    assert_eq!(normalized[5], function_call("call-b"));
    assert!(output_text(&normalized[6]).is_some_and(|text| text.contains(IMAGE_RESIZE_NOTICE_START)));
    assert!(output_text(&normalized[7]).is_some_and(|text| text.contains(IMAGE_RESIZE_NOTICE_START)));
}

#[test]
fn dangling_call_receives_placeholder_output() {
    let normalized = sanitize_prompt_history(
        "deepseek",
        vec![function_call("call-a"), message("user", "next")],
    );
    assert_transport_shape(&normalized);
    assert_eq!(normalized.len(), 3);
    assert!(output_text(&normalized[1]).is_some_and(|text| text.contains("omitted before transport")));
}

#[test]
fn orphan_output_is_removed() {
    let normalized = sanitize_prompt_history(
        "deepseek",
        vec![function_call("call-a"), text_output("call-a", "a"), text_output("call-b", "b")],
    );
    assert_transport_shape(&normalized);
    assert_eq!(normalized.len(), 2);
}

#[test]
fn annotated_copy_keeps_metadata_and_pairs_inserted_output() {
    let mut kept = ResponseItemEnvelope::new(function_call("call-a"));
    kept.metadata = Some(CodexHarnessMetadata {
        client_authored: true,
        fallback_token_limit_override: None,
    });
    let normalized = sanitize_prompt_history_annotated(
        "deepseek",
        vec![kept.clone(), ResponseItemEnvelope::new(message("user", "next"))],
    );
    assert_eq!(normalized[0], kept);
    assert_eq!(normalized[1].metadata, None);
    assert!(matches!(normalized[1].item, ResponseItem::FunctionCallOutput { .. }));
}
