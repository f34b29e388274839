use guise::ai::composer::{AIComposer, AIComposerEvent};
use guise::ai::chatview::{AIChatView, AIRole, AISource, AIToolStatus, AITurn, AITurnTool};
use guise::ai::modelpicker::{AIModel, ModelChoice};

#[test]
fn chat_view_streams_a_reply_and_closes_it() {
    let mut chat = AIChatView::new();
    chat.push(AITurn::user("hello"));
    chat.begin_reply();
    chat.push_delta("Hi");
    chat.push_delta(" there");
    chat.push_reasoning("weighing it up");
    assert_eq!(chat.turn_count(), 2);
    let reply = chat.turn(1).unwrap();
    assert_eq!(reply.body, "Hi there");
    assert_eq!(reply.reasoning.as_deref(), Some("weighing it up"));
    assert!(reply.streaming);

    chat.end_reply();
    assert!(!chat.turn(1).unwrap().streaming);

    // A delta that lands after the turn closed — a cancelled request whose
    // last chunk was already in flight — must not reopen it.
    chat.push_delta(" and more");
    assert_eq!(chat.turn(1).unwrap().body, "Hi there");
}

#[test]
fn chat_view_keeps_partial_text_when_a_reply_fails() {
    let mut chat = AIChatView::new();
    chat.begin_reply();
    chat.push_delta("partial");
    chat.fail_reply("connection reset");
    let reply = chat.turn(0).unwrap();
    assert_eq!(reply.body, "partial");
    assert_eq!(reply.error.as_deref(), Some("connection reset"));
    assert!(!reply.streaming);

    // Failing with nothing open is a no-op, not a panic.
    chat.fail_reply("late");
    assert_eq!(chat.turn(0).unwrap().error.as_deref(), Some("connection reset"));
}

#[test]
fn chat_view_edits_are_bounds_checked() {
    let mut chat = AIChatView::new();
    // Editing a turn that isn't there must not panic.
    chat.update_turn(3, |mut turn| {
        turn.body.push('!');
        turn
    });
    assert_eq!(chat.turn_count(), 0);
    chat.push(AITurn::assistant("done"));
    chat.update_turn(0, |turn| turn.meta("12 tokens"));
    assert_eq!(chat.turn(0).unwrap().meta.as_deref(), Some("12 tokens"));
    assert!(chat.turn(1).is_none());
}

#[test]
fn reasoning_accumulates_and_pending_follows() {
    let mut chat = AIChatView::default();
    chat.set_following(false);
    assert!(!chat.is_following());
    chat.set_pending(Some("Thinking…"));
    assert!(chat.is_following());
    assert_eq!(chat.pending(), Some("Thinking…"));
    let index = chat.begin_reply();
    assert_eq!(index, 0);
    assert_eq!(chat.pending(), None);
    chat.push_reasoning("a");
    chat.push_reasoning("b");
    assert_eq!(chat.turn(0).unwrap().reasoning.as_deref(), Some("ab"));
    chat.set_following(false);
    chat.scroll_to_bottom();
    assert!(chat.is_following());
    chat.clear();
    assert_eq!(chat.turn_count(), 0);
    assert_eq!(chat.all().len(), 0);
}

#[test]
fn turns_build_with_their_parts() {
    let turn = AITurn::system("be brief")
        .name("model-x")
        .reasoning("short")
        .sources(vec![AISource::new("Docs", "https://example.com").excerpt("…")])
        .tools(vec![AITurnTool::new("search")
            .status(AIToolStatus::Running)
            .arguments("{}")
            .result("[]")]);
    assert_eq!(turn.role, AIRole::System);
    assert_eq!(turn.name.as_deref(), Some("model-x"));
    assert_eq!(turn.sources[0].excerpt.as_deref(), Some("…"));
    assert_eq!(turn.tools[0].status, AIToolStatus::Running);
    assert_eq!(turn.tools[0].result.as_deref(), Some("[]"));
    let chat = AIChatView::new().turns(vec![turn, AITurn::user("hi")]);
    assert_eq!(chat.turn_count(), 2);
}

#[test]
fn role_and_status_labels() {
    assert_eq!(AIRole::User.label(), "You");
    assert_eq!(AIRole::Assistant.label(), "Assistant");
    assert_eq!(AIRole::System.label(), "System");
    assert_eq!(AIRole::Tool.label(), "Tool");
    assert_eq!(AIRole::default(), AIRole::User);
    assert_eq!(AIToolStatus::Pending.label(), "queued");
    assert_eq!(AIToolStatus::Running.label(), "running");
    assert_eq!(AIToolStatus::Done.label(), "done");
    assert_eq!(AIToolStatus::Error.label(), "failed");
    assert_eq!(AIToolStatus::default(), AIToolStatus::Pending);
}

fn ids(list: &[&str]) -> Vec<AIModel> {
    list.iter().map(|s| AIModel::new(s, &s.to_uppercase())).collect()
}

#[test]
fn the_picker_hands_back_the_whole_model() {
    let models = vec![
        AIModel::new("fast", "Fast").description("Quick answers").context(200_000),
        AIModel::new("deep", "Deep").context(1_000_000),
    ];
    let mut choice = ModelChoice::new().models(models).selected_id("deep");
    let chosen = choice.selected_model().expect("a model is selected");
    assert_eq!(chosen.id, "deep");
    assert_eq!(chosen.label, "Deep");
    assert_eq!(chosen.context, 1_000_000);
    assert!(chosen.description.is_none());
    assert!(choice.pick(0));
    let chosen = choice.selected_model().unwrap();
    assert_eq!(chosen.label, "Fast");
    assert_eq!(chosen.description.as_deref(), Some("Quick answers"));
    assert_eq!(choice.model_list().len(), 2);
    choice.set_models(Vec::new());
    assert!(choice.selected_model().is_none());
}

#[test]
fn the_picker_keeps_its_model_across_a_new_list() {
    let mut choice = ModelChoice::new()
        .models(ids(&["large", "medium", "small"]))
        .selected_id("medium");
    assert_eq!(choice.selection(), Some(1));
    choice.set_models(ids(&["small", "medium"]));
    assert_eq!(choice.selection(), Some(1));
    choice.set_models(ids(&["mini"]));
    assert_eq!(choice.selection(), Some(0));
    choice.set_models(Vec::new());
    assert_eq!(choice.selection(), None);
}

#[test]
fn the_picker_chooses_by_id_and_closes() {
    let mut choice = ModelChoice::default().models(ids(&["a", "b"]));
    choice.toggle_open();
    assert!(choice.is_open());
    assert_eq!(choice.select_id("missing"), None);
    assert!(choice.is_open());
    assert_eq!(choice.select_id("b"), Some(1));
    assert!(!choice.is_open());
    assert!(!choice.pick(5));
    assert!(choice.pick(0));
    assert_eq!(choice.selection(), Some(0));
    let unknown = ModelChoice::new().models(ids(&["a"])).selected_id("z");
    assert_eq!(unknown.selection(), Some(0));
}

#[test]
fn a_blank_draft_is_not_sent() {
    let mut composer = AIComposer::new().attachments(true).hint("Enter to send");
    composer.set_text("   \n");
    assert!(composer.submit().is_none());
    assert_eq!(composer.text(), "   \n");
    composer.set_text("");
    assert!(composer.submit().is_none());
    composer.set_text("  hello ");
    match composer.submit() {
        Some(AIComposerEvent::Submit(text)) => assert_eq!(text, "  hello "),
        other => panic!("expected a submit, got {other:?}"),
    }
    assert_eq!(composer.text(), "");
    let mut busy = AIComposer::default();
    busy.set_busy(true);
    assert!(busy.is_busy());
    busy.set_text("hello");
    assert!(busy.submit().is_none());
    assert_eq!(busy.text(), "hello");
    let mut disabled = AIComposer::new().disabled(true);
    disabled.set_text("hello");
    assert!(disabled.submit().is_none());
    assert_eq!(disabled.text(), "hello");
}

#[test]
fn composer_sends_on_enter_and_refuses_blank_drafts() {
    let mut composer = AIComposer::new();
    let mut sent: Vec<String> = Vec::new();

    // Whitespace is not a prompt.
    match composer.edit("   ") {
        AIComposerEvent::Change(text) => assert_eq!(text, "   "),
        other => panic!("expected a change, got {other:?}"),
    }
    if let Some(AIComposerEvent::Submit(text)) = composer.submit() {
        sent.push(text);
    }
    assert!(sent.is_empty());

    composer.edit("   write a haiku");
    if let Some(AIComposerEvent::Submit(text)) = composer.submit() {
        sent.push(text);
    }
    assert_eq!(sent.as_slice(), ["   write a haiku"]);
    // The box clears itself, so the next prompt starts empty.
    assert_eq!(composer.text(), "");

    // A line break is part of the draft, not a send.
    composer.edit("one\ntwo");
    assert_eq!(sent.len(), 1);
    assert_eq!(composer.text(), "one\ntwo");

    // While a reply is streaming the composer will not send.
    composer.set_busy(true);
    if let Some(AIComposerEvent::Submit(text)) = composer.submit() {
        sent.push(text);
    }
    assert_eq!(sent.len(), 1);
}
