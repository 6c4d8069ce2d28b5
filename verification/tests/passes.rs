use lib::items::{
    is_call_family, is_tool_output, ContentItem, FunctionCallOutputBody,
    FunctionCallOutputContentItem, FunctionCallOutputPayload, ReasoningItemContent, ResponseItem,
};
use lib::notices::{
    append_text_content, image_resize_notice_text, merge_image_resize_notices,
    IMAGE_RESIZE_NOTICE_END, IMAGE_RESIZE_NOTICE_START,
};
use lib::pairing::{repair_tool_call_pairing, OMITTED_TOOL_OUTPUT_PLACEHOLDER};
use lib::prompt_copy::{CodexHarnessMetadata, ResponseItemEnvelope};
use lib::relocate::relocate_messages_away_from_tool_outputs;
use lib::sanitize::{sanitize_prompt_history, sanitize_prompt_history_annotated};
use lib::text::{contains_str, eq_ignore_ascii_case, str_equal};

const NOTICE: &str = "<image_resize_notice>resized</image_resize_notice>";

fn plain_reasoning() -> ResponseItem {
    ResponseItem::Reasoning {
        id: None,
        summary: vec![],
        content: Some(vec![ReasoningItemContent::Text { text: "thinking".to_owned() }]),
        encrypted_content: None,
    }
}

fn encrypted_reasoning() -> ResponseItem {
    ResponseItem::Reasoning {
        id: None,
        summary: vec![],
        content: None,
        encrypted_content: Some("ciphertext".to_owned()),
    }
}

fn empty_reasoning() -> ResponseItem {
    ResponseItem::Reasoning {
        id: None,
        summary: vec![],
        content: Some(vec![]),
        encrypted_content: Some(String::new()),
    }
}

fn message(role: &str, text: &str) -> ResponseItem {
    ResponseItem::Message {
        id: None,
        role: role.to_owned(),
        content: vec![ContentItem::InputText { text: text.to_owned() }],
        phase: None,
    }
}

fn notice() -> ResponseItem {
    message("developer", NOTICE)
}

fn call(call_id: &str) -> ResponseItem {
    ResponseItem::FunctionCall {
        id: None,
        name: "shell".to_owned(),
        namespace: Some("tools".to_owned()),
        arguments: "{}".to_owned(),
        call_id: call_id.to_owned(),
    }
}

fn custom_call(call_id: &str) -> ResponseItem {
    ResponseItem::CustomToolCall {
        id: None,
        call_id: call_id.to_owned(),
        name: "apply_patch".to_owned(),
        input: "patch".to_owned(),
    }
}

fn output(call_id: &str, text: &str) -> ResponseItem {
    ResponseItem::FunctionCallOutput {
        id: None,
        call_id: Some(call_id.to_owned()),
        name: None,
        namespace: None,
        output: FunctionCallOutputPayload::from_text(text.to_owned()),
    }
}

fn image_output(call_id: &str) -> ResponseItem {
    ResponseItem::FunctionCallOutput {
        id: None,
        call_id: Some(call_id.to_owned()),
        name: None,
        namespace: None,
        output: FunctionCallOutputPayload {
            body: FunctionCallOutputBody::ContentItems(vec![
                FunctionCallOutputContentItem::InputImage {
                    image_url: "data:image/png;base64,AAAA".to_owned(),
                    detail: None,
                },
            ]),
            success: Some(true),
        },
    }
}

fn is_message(item: &ResponseItem) -> bool {
    matches!(item, ResponseItem::Message { .. })
}

fn call_ids(items: &[ResponseItem]) -> Vec<String> {
    let mut ids = Vec::new();
    for item in items {
        match item {
            ResponseItem::FunctionCall { call_id, .. } | ResponseItem::CustomToolCall { call_id, .. } => {
                ids.push(call_id.clone())
            }
            _ => {}
        }
    }
    ids
}

fn output_ids(items: &[ResponseItem]) -> Vec<Option<String>> {
    let mut ids = Vec::new();
    for item in items {
        match item {
            ResponseItem::FunctionCallOutput { call_id, .. } => ids.push(call_id.clone()),
            ResponseItem::CustomToolCallOutput { call_id, .. } => ids.push(Some(call_id.clone())),
            _ => {}
        }
    }
    ids
}

fn assert_paired(items: &[ResponseItem]) {
    let calls = call_ids(items);
    let outputs = output_ids(items);
    for id in &calls {
        assert!(outputs.contains(&Some(id.clone())), "call {id} has no output");
    }
    for id in &outputs {
        let id = id.clone().expect("every output names its call");
        assert!(calls.contains(&id), "output {id} has no call");
    }
}

#[test]
fn provider_ids_differing_in_ascii_case_give_the_same_copy() {
    let input = vec![plain_reasoning(), encrypted_reasoning(), notice(), message("user", "hi")];
    let lower = sanitize_prompt_history("openai", input.clone());
    assert_eq!(sanitize_prompt_history("OPENAI", input.clone()), lower);
    assert_eq!(sanitize_prompt_history("oPeNaI", input.clone()), lower);
    assert_eq!(lower, vec![encrypted_reasoning(), notice(), message("user", "hi")]);
}

#[test]
fn provider_id_with_extra_characters_is_third_party() {
    let input = vec![plain_reasoning(), encrypted_reasoning()];
    assert_eq!(sanitize_prompt_history("openai ", input.clone()), vec![plain_reasoning()]);
    assert_eq!(sanitize_prompt_history("azure-openai", input.clone()), vec![plain_reasoning()]);
    assert_eq!(sanitize_prompt_history("", input), vec![plain_reasoning()]);
}

#[test]
fn empty_reasoning_parts_count_as_absent() {
    assert!(sanitize_prompt_history("openai", vec![empty_reasoning()]).is_empty());
    assert!(sanitize_prompt_history("other", vec![empty_reasoning()]).is_empty());
}

#[test]
fn openai_copy_keeps_everything_but_reasoning_in_order() {
    let input = vec![
        message("user", "a"),
        plain_reasoning(),
        call("c1"),
        notice(),
        output("c9", "orphan"),
        encrypted_reasoning(),
        message("assistant", "b"),
    ];
    let result = sanitize_prompt_history("openai", input.clone());
    let strip = |items: &[ResponseItem]| -> Vec<ResponseItem> {
        items
            .iter()
            .filter(|item| !matches!(item, ResponseItem::Reasoning { .. }))
            .cloned()
            .collect()
    };
    assert_eq!(strip(&result), strip(&input));
    assert_eq!(result.len(), 6);
    assert_eq!(result[4], encrypted_reasoning());
}

#[test]
fn third_party_copy_is_paired_and_free_of_encrypted_reasoning() {
    let input = vec![
        encrypted_reasoning(),
        call("c1"),
        custom_call("c2"),
        output("c3", "orphan"),
        plain_reasoning(),
        ResponseItem::FunctionCallOutput {
            id: None,
            call_id: None,
            name: None,
            namespace: None,
            output: FunctionCallOutputPayload::from_text("no id".to_owned()),
        },
        output("c1", "done"),
        message("user", "next"),
    ];
    let result = sanitize_prompt_history("anthropic", input);
    assert_paired(&result);
    for item in &result {
        if let ResponseItem::Reasoning { content, .. } = item {
            assert!(content.as_ref().is_some_and(|parts| !parts.is_empty()));
        }
    }
    assert_eq!(
        result,
        vec![
            call("c1"),
            custom_call("c2"),
            ResponseItem::CustomToolCallOutput {
                id: None,
                call_id: "c2".to_owned(),
                name: Some("apply_patch".to_owned()),
                output: FunctionCallOutputPayload::from_text(
                    OMITTED_TOOL_OUTPUT_PLACEHOLDER.to_owned()
                ),
            },
            plain_reasoning(),
            output("c1", "done"),
            message("user", "next"),
        ]
    );
}

#[test]
fn placeholder_text_is_exact() {
    assert_eq!(
        OMITTED_TOOL_OUTPUT_PLACEHOLDER,
        "[tool output omitted before transport by the local client; the original output is present in local task history]"
    );
}

#[test]
fn stand_in_for_function_call_copies_name_and_namespace() {
    let (items, inserted, removed) = repair_tool_call_pairing(vec![call("x")]);
    assert_eq!(inserted, 1);
    assert_eq!(removed, 0);
    assert_eq!(
        items,
        vec![
            call("x"),
            ResponseItem::FunctionCallOutput {
                id: None,
                call_id: Some("x".to_owned()),
                name: Some("shell".to_owned()),
                namespace: Some("tools".to_owned()),
                output: FunctionCallOutputPayload::from_text(
                    OMITTED_TOOL_OUTPUT_PLACEHOLDER.to_owned()
                ),
            },
        ]
    );
}

#[test]
fn repair_counts_inserted_and_removed_items() {
    let (items, inserted, removed) = repair_tool_call_pairing(vec![
        output("gone", "x"),
        call("a"),
        call("b"),
        output("b", "ok"),
        output("also-gone", "y"),
        custom_call("c"),
    ]);
    assert_eq!(inserted, 2);
    assert_eq!(removed, 2);
    assert_eq!(items.len(), 6);
    assert_paired(&items);
}

#[test]
fn output_answered_by_other_kind_of_call_counts_as_paired() {
    let custom_output = ResponseItem::CustomToolCallOutput {
        id: None,
        call_id: "a".to_owned(),
        name: None,
        output: FunctionCallOutputPayload::from_text("ok".to_owned()),
    };
    let (items, inserted, removed) =
        repair_tool_call_pairing(vec![call("a"), custom_output.clone()]);
    assert_eq!((inserted, removed), (0, 0));
    assert_eq!(items, vec![call("a"), custom_output]);
}

#[test]
fn notice_text_requires_developer_role_and_both_markers() {
    assert_eq!(image_resize_notice_text(&notice()), Some(NOTICE));
    assert_eq!(image_resize_notice_text(&message("user", NOTICE)), None);
    assert_eq!(
        image_resize_notice_text(&message("developer", "<image_resize_notice> only start")),
        None
    );
    assert_eq!(
        image_resize_notice_text(&message("developer", "only end </image_resize_notice>")),
        None
    );
    assert_eq!(image_resize_notice_text(&call("a")), None);
    let empty = ResponseItem::Message {
        id: None,
        role: "developer".to_owned(),
        content: vec![],
        phase: None,
    };
    assert_eq!(image_resize_notice_text(&empty), None);
}

#[test]
fn notice_text_is_the_longest_text_part() {
    let with_image = ResponseItem::Message {
        id: None,
        role: "developer".to_owned(),
        content: vec![
            ContentItem::InputText { text: NOTICE.to_owned() },
            ContentItem::InputImage { image_url: "u".to_owned() },
        ],
        phase: None,
    };
    assert_eq!(image_resize_notice_text(&with_image), None);
    let two_parts = ResponseItem::Message {
        id: None,
        role: "developer".to_owned(),
        content: vec![
            ContentItem::InputText { text: "short".to_owned() },
            ContentItem::InputText { text: NOTICE.to_owned() },
            ContentItem::InputText { text: "tiny".to_owned() },
        ],
        phase: None,
    };
    assert_eq!(image_resize_notice_text(&two_parts), Some(NOTICE));
    let longest_without_markers = ResponseItem::Message {
        id: None,
        role: "developer".to_owned(),
        content: vec![
            ContentItem::InputText { text: NOTICE.to_owned() },
            ContentItem::InputText { text: "x".repeat(NOTICE.len() + 1) },
        ],
        phase: None,
    };
    assert_eq!(image_resize_notice_text(&longest_without_markers), None);
}

#[test]
fn notice_text_length_ties_keep_the_first_part() {
    let first = "<image_resize_notice>aaaa</image_resize_notice>";
    let second = "b".repeat(first.len());
    let item = ResponseItem::Message {
        id: None,
        role: "developer".to_owned(),
        content: vec![
            ContentItem::InputText { text: first.to_owned() },
            ContentItem::InputText { text: second },
        ],
        phase: None,
    };
    assert_eq!(image_resize_notice_text(&item), Some(first));
}

#[test]
fn appending_to_text_output_makes_a_two_part_list() {
    let mut item = ResponseItem::FunctionCallOutput {
        id: None,
        call_id: Some("a".to_owned()),
        name: None,
        namespace: None,
        output: FunctionCallOutputPayload {
            body: FunctionCallOutputBody::Text("result".to_owned()),
            success: Some(false),
        },
    };
    assert!(append_text_content(&mut item, "note"));
    let ResponseItem::FunctionCallOutput { output, .. } = item else {
        panic!("variant changed")
    };
    assert_eq!(
        output,
        FunctionCallOutputPayload {
            body: FunctionCallOutputBody::ContentItems(vec![
                FunctionCallOutputContentItem::InputText { text: "result".to_owned() },
                FunctionCallOutputContentItem::InputText { text: "note".to_owned() },
            ]),
            success: None,
        }
    );
}

#[test]
fn appending_to_list_output_keeps_success_flag() {
    let mut item = image_output("a");
    assert!(append_text_content(&mut item, "note"));
    let ResponseItem::FunctionCallOutput { output, .. } = item else {
        panic!("variant changed")
    };
    assert_eq!(output.success, Some(true));
    assert_eq!(output.content_items().map(|parts| parts.len()), Some(2));
}

#[test]
fn appending_to_message_and_custom_output() {
    let mut item = message("user", "hello");
    assert!(append_text_content(&mut item, "world"));
    let ResponseItem::Message { content, .. } = &item else { panic!("variant changed") };
    assert_eq!(content.len(), 2);
    assert_eq!(content[1], ContentItem::InputText { text: "world".to_owned() });

    let mut custom = ResponseItem::CustomToolCallOutput {
        id: None,
        call_id: "c".to_owned(),
        name: None,
        output: FunctionCallOutputPayload::from_text("x".to_owned()),
    };
    assert!(append_text_content(&mut custom, "y"));
    let ResponseItem::CustomToolCallOutput { output, .. } = custom else {
        panic!("variant changed")
    };
    assert_eq!(output.content_items().map(|parts| parts.len()), Some(2));
}

#[test]
fn appending_to_call_or_reasoning_is_refused() {
    let mut item = call("a");
    assert!(!append_text_content(&mut item, "note"));
    assert_eq!(item, call("a"));
    let mut item = plain_reasoning();
    assert!(!append_text_content(&mut item, "note"));
    assert_eq!(item, plain_reasoning());
}

#[test]
fn merge_folds_notices_and_counts_them() {
    let (items, merged) = merge_image_resize_notices(vec![
        notice(),
        notice(),
        call("a"),
        notice(),
        image_output("a"),
        notice(),
        notice(),
    ]);
    // The first notice has no predecessor; the second folds into it. The third
    // follows a call and stays; the last two fold into the output.
    assert_eq!(merged, 3);
    assert_eq!(items.len(), 4);
    let ResponseItem::Message { content, .. } = &items[0] else { panic!("expected message") };
    assert_eq!(content.len(), 2);
    assert_eq!(items[1], call("a"));
    assert_eq!(items[2], notice());
    let ResponseItem::FunctionCallOutput { output, .. } = &items[3] else {
        panic!("expected output")
    };
    assert_eq!(output.content_items().map(|parts| parts.len()), Some(3));
}

#[test]
fn merge_keeps_metadata_of_the_receiving_entry() {
    let metadata = Some(CodexHarnessMetadata { client_authored: true, fallback_token_limit_override: Some(7) });
    let mut receiver = ResponseItemEnvelope::new(image_output("a"));
    receiver.metadata = metadata;
    let (items, merged) =
        merge_image_resize_notices(vec![receiver, ResponseItemEnvelope::new(notice())]);
    assert_eq!(merged, 1);
    assert_eq!(items.len(), 1);
    assert_eq!(items[0].metadata, metadata);
}

#[test]
fn relocation_moves_only_interrupting_runs() {
    let (items, relocated) = relocate_messages_away_from_tool_outputs(vec![
        message("user", "before"),
        call("a"),
        message("user", "m1"),
        message("user", "m2"),
        output("a", "x"),
        message("user", "after"),
    ]);
    assert_eq!(relocated, 1);
    assert_eq!(
        items,
        vec![
            message("user", "before"),
            message("user", "m1"),
            message("user", "m2"),
            call("a"),
            output("a", "x"),
            message("user", "after"),
        ]
    );
}

#[test]
fn relocation_without_any_call_moves_the_run_before_the_outputs() {
    let (items, relocated) = relocate_messages_away_from_tool_outputs(vec![
        output("a", "x"),
        message("user", "m"),
        output("b", "y"),
    ]);
    assert_eq!(relocated, 1);
    assert_eq!(items, vec![message("user", "m"), output("a", "x"), output("b", "y")]);
}

#[test]
fn relocation_without_any_call_stops_at_the_trailing_outputs() {
    let (items, relocated) = relocate_messages_away_from_tool_outputs(vec![
        plain_reasoning(),
        message("user", "m1"),
        output("a", "x"),
        output("b", "y"),
        message("user", "m2"),
        output("c", "z"),
    ]);
    assert_eq!(relocated, 1);
    assert_eq!(
        items,
        vec![
            plain_reasoning(),
            message("user", "m1"),
            message("user", "m2"),
            output("a", "x"),
            output("b", "y"),
            output("c", "z"),
        ]
    );
}

fn shell_call(call_id: Option<&str>) -> ResponseItem {
    ResponseItem::LocalShellCall {
        id: None,
        call_id: call_id.map(|c| c.to_owned()),
        command: vec!["ls".to_owned()],
    }
}

fn search_call(call_id: &str) -> ResponseItem {
    ResponseItem::ToolSearchCall {
        id: None,
        call_id: Some(call_id.to_owned()),
        query: "files".to_owned(),
    }
}

fn bare_stand_in(call_id: &str) -> ResponseItem {
    ResponseItem::FunctionCallOutput {
        id: None,
        call_id: Some(call_id.to_owned()),
        name: None,
        namespace: None,
        output: FunctionCallOutputPayload::from_text(OMITTED_TOOL_OUTPUT_PLACEHOLDER.to_owned()),
    }
}

#[test]
fn local_shell_call_keeps_its_output() {
    let items = vec![shell_call(Some("c")), output("c", "listing")];
    assert_eq!(repair_tool_call_pairing(items.clone()), (items.clone(), 0, 0));
    assert_eq!(sanitize_prompt_history("deepseek", items.clone()), items);
}

#[test]
fn dangling_local_shell_and_tool_search_calls_get_stand_ins() {
    let (items, inserted, removed) =
        repair_tool_call_pairing(vec![shell_call(Some("s")), search_call("t")]);
    assert_eq!((inserted, removed), (2, 0));
    assert_eq!(
        items,
        vec![shell_call(Some("s")), bare_stand_in("s"), search_call("t"), bare_stand_in("t")]
    );
}

#[test]
fn local_shell_call_without_id_is_left_alone() {
    let (items, inserted, removed) =
        repair_tool_call_pairing(vec![shell_call(None), output("x", "orphan")]);
    assert_eq!((inserted, removed), (0, 1));
    assert_eq!(items, vec![shell_call(None)]);
}

#[test]
fn repairing_a_repaired_copy_changes_nothing() {
    let (once, _, _) = repair_tool_call_pairing(vec![
        output("gone", "x"),
        call("a"),
        shell_call(Some("s")),
        output("s", "ok"),
        custom_call("c"),
    ]);
    assert_eq!(repair_tool_call_pairing(once.clone()), (once, 0, 0));
}

#[test]
fn third_party_copy_has_no_message_between_output_and_output() {
    let result = sanitize_prompt_history(
        "deepseek",
        vec![
            output("a", "1"),
            message("user", "m"),
            output("b", "2"),
            call("c"),
            message("user", "n"),
            output("c", "3"),
        ],
    );
    for (index, item) in result.iter().enumerate() {
        if is_tool_output(item) && index > 0 {
            assert!(!is_message(&result[index - 1]));
        }
    }
    assert_paired(&result);
}

#[test]
fn relocation_keeps_the_order_of_everything_but_messages() {
    let input = vec![
        call("a"),
        call("b"),
        output("a", "1"),
        message("user", "s"),
        plain_reasoning(),
        message("user", "t"),
        output("b", "2"),
        call("c"),
        message("developer", "u"),
        output("c", "3"),
    ];
    let (items, relocated) = relocate_messages_away_from_tool_outputs(input.clone());
    // Only the run before the last output follows a call; the run after the
    // reasoning item stays where it is.
    assert_eq!(relocated, 1);
    assert_eq!(items.len(), input.len());
    let others = |v: &[ResponseItem]| -> Vec<ResponseItem> {
        v.iter().filter(|item| !is_message(item)).cloned().collect()
    };
    assert_eq!(others(&items), others(&input));
    let mut sorted_in: Vec<String> = input.iter().map(|i| format!("{i:?}")).collect();
    let mut sorted_out: Vec<String> = items.iter().map(|i| format!("{i:?}")).collect();
    sorted_in.sort();
    sorted_out.sort();
    assert_eq!(sorted_in, sorted_out);
}

#[test]
fn message_after_reasoning_is_not_moved() {
    // The run's predecessor is a reasoning item, so the run is not an
    // interruption and stays in front of the output.
    let result = sanitize_prompt_history(
        "deepseek",
        vec![call("a"), plain_reasoning(), message("user", "m"), output("a", "x")],
    );
    assert_eq!(result, vec![call("a"), plain_reasoning(), message("user", "m"), output("a", "x")]);
}

#[test]
fn annotated_third_party_copy_keeps_metadata_of_kept_entries() {
    let metadata = Some(CodexHarnessMetadata { client_authored: false, fallback_token_limit_override: Some(3) });
    let mut first = ResponseItemEnvelope::new(call("a"));
    first.metadata = metadata;
    let mut steering = ResponseItemEnvelope::new(message("user", "steer"));
    steering.metadata = metadata;
    let result = sanitize_prompt_history_annotated(
        "deepseek",
        vec![
            first.clone(),
            ResponseItemEnvelope::new(call("b")),
            ResponseItemEnvelope::new(output("a", "1")),
            steering.clone(),
            ResponseItemEnvelope::new(output("b", "2")),
        ],
    );
    assert_eq!(result.len(), 5);
    assert_eq!(result[0], first);
    assert_eq!(result[1], steering);
    assert_eq!(result[2].item, call("b"));
}

#[test]
fn four_image_notice_batch_is_transportable() {
    let ids = ["call-1", "call-2", "call-3", "call-4"];
    let mut items = Vec::new();
    for id in ids {
        items.push(call(id));
    }
    for id in ids {
        items.push(image_output(id));
        items.push(notice());
    }
    assert_eq!(items.len(), 12);
    let normalized = sanitize_prompt_history("deepseek", items);
    assert_eq!(normalized.len(), 8);
    assert!(normalized.iter().all(|item| !is_message(item)));
    assert_paired(&normalized);
    for item in &normalized[4..] {
        assert!(is_tool_output(item));
        let ResponseItem::FunctionCallOutput { output, .. } = item else { panic!("expected output") };
        let parts = output.content_items().expect("list output");
        assert_eq!(parts.len(), 2);
        assert_eq!(parts[1], FunctionCallOutputContentItem::InputText { text: NOTICE.to_owned() });
    }
    for item in &normalized[..4] {
        assert!(is_call_family(item));
    }
}

#[test]
fn text_helpers_compare_bytes() {
    assert!(eq_ignore_ascii_case("OpenAI", "openai"));
    assert!(!eq_ignore_ascii_case("openai", "openai!"));
    assert!(!eq_ignore_ascii_case("ÖPENAI", "öpenai"));
    assert!(contains_str("abc<x>def", "<x>"));
    assert!(contains_str("abc", ""));
    assert!(!contains_str("ab", "abc"));
    assert!(contains_str(IMAGE_RESIZE_NOTICE_END, "/image"));
    assert!(str_equal("développeur", "développeur"));
    assert!(!str_equal("developer", "Developer"));
}

#[test]
fn annotated_copy_holds_the_items_of_the_bare_copy() {
    let metadata = Some(CodexHarnessMetadata { client_authored: true, fallback_token_limit_override: None });
    let bare = vec![
        encrypted_reasoning(),
        call("a"),
        call("b"),
        image_output("a"),
        notice(),
        message("user", "steer"),
        output("b", "2"),
        output("gone", "3"),
        shell_call(Some("s")),
    ];
    let annotated: Vec<ResponseItemEnvelope> = bare
        .iter()
        .map(|item| ResponseItemEnvelope { item: item.clone(), metadata })
        .collect();
    let from_bare = sanitize_prompt_history("deepseek", bare.clone());
    let from_annotated = sanitize_prompt_history_annotated("deepseek", annotated);
    let items: Vec<ResponseItem> = from_annotated.iter().map(|e| e.item.clone()).collect();
    assert_eq!(items, from_bare);
    let carrying = from_annotated.iter().filter(|e| e.metadata == metadata).count();
    // Two entries were dropped (encrypted reasoning, orphan output) and one
    // folded (the notice); the stand-in for the shell call carries none.
    assert_eq!(carrying, bare.len() - 3);
    assert!(carrying <= bare.len());
    assert_eq!(from_annotated.last().map(|e| e.metadata), Some(None));
}
