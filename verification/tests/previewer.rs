use matchmaker::previewer::{preview_on_change, preview_on_set, PreviewMessage, PreviewPayload};
use matchmaker::render::StyledText;

#[test]
fn changes_run_the_command_or_stop() {
    assert_eq!(preview_on_change(false, true, "cat x"), Some(PreviewMessage::Run("cat x".to_string())));
    assert_eq!(preview_on_change(false, true, ""), Some(PreviewMessage::Stop));
    assert_eq!(preview_on_change(false, false, "cat x"), Some(PreviewMessage::Stop));
    assert_eq!(preview_on_change(true, true, "cat x"), None);
}

#[test]
fn set_payloads_show_text_help_or_run() {
    assert_eq!(preview_on_set(false, None), None);
    assert_eq!(preview_on_set(true, None), Some(PreviewMessage::Unset));
    let empty = StyledText { lines: vec![] };
    assert_eq!(preview_on_set(true, Some(PreviewPayload::Text(empty))), Some(PreviewMessage::Help));
    let text = StyledText::raw("hello");
    assert_eq!(preview_on_set(true, Some(PreviewPayload::Text(text.clone()))), Some(PreviewMessage::Show(text)));
    assert_eq!(preview_on_set(true, Some(PreviewPayload::Command(String::new()))), Some(PreviewMessage::Stop));
    assert_eq!(
        preview_on_set(true, Some(PreviewPayload::Command("ls".to_string()))),
        Some(PreviewMessage::Run("ls".to_string()))
    );
}
