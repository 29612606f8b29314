use claw_code::completion::{
    normalize_completions, should_trigger_slash_command_menu, slash_command_prefix, SlashCommandHelper,
};
use claw_code::picker::{
    filter_slash_command_picker_entries, picker_frame_lines, picker_shortcut, PickerKey,
    SlashCommandPicker, SlashCommandPickerEntry, SlashCommandPickerOutcome,
};
use claw_code::read_line::{
    after_picker, editor_action, fallback_outcome, should_record_history, AfterPicker, EditorAction,
    EditorEvent, ReadOutcome,
};

fn entry(command: &str, summary: &str, execute_immediately: bool) -> SlashCommandPickerEntry {
    SlashCommandPickerEntry {
        command: command.to_string(),
        insert_text: if execute_immediately { command.to_string() } else { format!("{command} ") },
        summary: summary.to_string(),
        execute_immediately,
    }
}

fn strings(items: &[&str]) -> Vec<String> {
    items.iter().map(|s| s.to_string()).collect()
}

#[test]
fn extracts_terminal_slash_command_prefixes_with_arguments() {
    assert_eq!(slash_command_prefix("/he", 3), Some("/he"));
    assert_eq!(slash_command_prefix("/help me", 8), Some("/help me"));
    assert_eq!(slash_command_prefix("/session switch ses", 19), Some("/session switch ses"));
    assert_eq!(slash_command_prefix("hello", 5), None);
    assert_eq!(slash_command_prefix("/help", 2), None);
}

#[test]
fn triggers_slash_command_menu_only_for_a_fresh_slash() {
    assert!(should_trigger_slash_command_menu("", 0));
    assert!(!should_trigger_slash_command_menu("/", 1));
    assert!(!should_trigger_slash_command_menu("hello", 5));
    assert!(!should_trigger_slash_command_menu("/status", 7));
}

#[test]
fn slash_picker_filters_by_command_prefix_before_summary_matches() {
    let entries = vec![
        SlashCommandPickerEntry {
            command: "/status".to_string(),
            insert_text: "/status".to_string(),
            summary: "Show session status".to_string(),
            execute_immediately: true,
        },
        SlashCommandPickerEntry {
            command: "/stats".to_string(),
            insert_text: "/stats".to_string(),
            summary: "Show usage stats".to_string(),
            execute_immediately: true,
        },
        SlashCommandPickerEntry {
            command: "/diff".to_string(),
            insert_text: "/diff".to_string(),
            summary: "Inspect git changes and status".to_string(),
            execute_immediately: true,
        },
    ];

    assert_eq!(filter_slash_command_picker_entries(&entries, "sta"), vec![0, 1, 2]);
    assert_eq!(filter_slash_command_picker_entries(&entries, "git"), vec![2]);
}

#[test]
fn slash_picker_ranks_infix_matches_between_prefix_and_summary_matches() {
    let entries = vec![
        entry("/history", "Show a model's log", true),
        entry("/model", "Switch model", false),
        entry("/remodel", "Rebuild", true),
        entry("/help", "List commands", true),
    ];
    assert_eq!(filter_slash_command_picker_entries(&entries, " /MOD "), vec![1, 2, 0]);
    assert_eq!(filter_slash_command_picker_entries(&entries, "  "), vec![0, 1, 2, 3]);
    assert_eq!(filter_slash_command_picker_entries(&entries, "zzz"), Vec::<usize>::new());
}

#[test]
fn completes_matching_slash_commands() {
    let helper = SlashCommandHelper::new(strings(&["/help", "/hello", "/status"]));
    let (start, matches) = helper.complete("/he", 3);
    assert_eq!(start, 0);
    assert_eq!(matches, vec!["/help".to_string(), "/hello".to_string()]);
}

#[test]
fn completes_matching_slash_command_arguments() {
    let helper = SlashCommandHelper::new(strings(&[
        "/model",
        "/model opus",
        "/model sonnet",
        "/session switch alpha",
    ]));
    let (start, matches) = helper.complete("/model o", 8);
    assert_eq!(start, 0);
    assert_eq!(matches, vec!["/model opus".to_string()]);
}

#[test]
fn ignores_non_slash_command_completion_requests() {
    let helper = SlashCommandHelper::new(strings(&["/help"]));
    let (_, matches) = helper.complete("hello", 5);
    assert!(matches.is_empty());
}

#[test]
fn does_not_dump_model_variants_before_model_argument_completion() {
    let helper = SlashCommandHelper::new(strings(&["/model", "/model openai/gpt-4o", "/memory"]));
    let (_, matches) = helper.complete("/m", 2);
    assert_eq!(matches, vec!["/memory".to_string(), "/model".to_string()]);
}

#[test]
fn model_variants_are_offered_once_the_argument_starts() {
    let helper = SlashCommandHelper::new(strings(&["/model", "/model openai/gpt-4o", "/memory"]));
    let (_, matches) = helper.complete("/model ", 7);
    assert_eq!(matches, vec!["/model openai/gpt-4o".to_string()]);
}

#[test]
fn other_commands_keep_their_list_order() {
    let helper = SlashCommandHelper::new(strings(&["/session", "/session switch a", "/status", "/stats"]));
    let (_, matches) = helper.complete("/s", 2);
    assert_eq!(matches, strings(&["/session", "/session switch a", "/status", "/stats"]));
}

#[test]
fn model_without_variants_keeps_its_place() {
    let helper = SlashCommandHelper::new(strings(&["/model", "/memory"]));
    let (_, matches) = helper.complete("/m", 2);
    assert_eq!(matches, strings(&["/model", "/memory"]));
}

#[test]
fn completion_needs_the_cursor_at_the_end() {
    let helper = SlashCommandHelper::new(strings(&["/help"]));
    let (start, matches) = helper.complete("/he", 1);
    assert_eq!(start, 0);
    assert!(matches.is_empty());
}

#[test]
fn tracks_current_buffer_through_highlighter() {
    let mut helper = SlashCommandHelper::new(Vec::new());
    let _ = helper.highlight("draft", 5);

    assert_eq!(helper.current_line(), "draft");
}

#[test]
fn highlighting_a_char_records_the_buffer_and_reset_forgets_it() {
    let mut helper = SlashCommandHelper::new(strings(&["/help"]));
    assert!(!helper.highlight_char("/he", 3));
    assert_eq!(helper.current_line(), "/he");
    helper.reset_current_line();
    assert_eq!(helper.current_line(), "");
    assert_eq!(helper.completions(), &vec!["/help".to_string()]);
}

#[test]
fn set_completions_replaces_and_normalizes_candidates() {
    let mut helper = SlashCommandHelper::new(strings(&["/help"]));
    helper.set_completions(strings(&["/model opus", "/model opus", "status"]));
    assert_eq!(helper.completions(), &vec!["/model opus".to_string()]);
}

#[test]
fn normalizing_keeps_first_occurrences_of_slash_commands() {
    assert_eq!(
        normalize_completions(strings(&["/b", "x", "/a", "/b", "", "/a", "/c"])),
        strings(&["/b", "/a", "/c"])
    );
    assert!(normalize_completions(Vec::new()).is_empty());
}

#[test]
fn picker_moves_the_selection_round_the_matches() {
    let entries = vec![entry("/a", "", true), entry("/b", "", true), entry("/c", "", true)];
    let mut picker = SlashCommandPicker::new();
    let filtered = picker.frame(&entries);
    assert_eq!(picker.handle_key(&entries, &filtered, PickerKey::Up), None);
    assert_eq!(picker.selected_index(), 2);
    assert_eq!(picker.handle_key(&entries, &filtered, PickerKey::Down), None);
    assert_eq!(picker.selected_index(), 0);
    assert_eq!(picker.handle_key(&entries, &filtered, PickerKey::Down), None);
    assert_eq!(picker.handle_key(&entries, &filtered, PickerKey::Up), None);
    assert_eq!(picker.selected_index(), 0);
    picker.handle_key(&entries, &filtered, PickerKey::Down);
    assert_eq!(
        picker.handle_key(&entries, &filtered, PickerKey::Enter),
        Some(SlashCommandPickerOutcome::Submit("/b".to_string()))
    );
}

#[test]
fn picker_typing_filters_and_enter_prefills_commands_with_arguments() {
    let entries = vec![entry("/status", "Show status", true), entry("/model", "Switch model", false)];
    let mut picker = SlashCommandPicker::new();
    for ch in ['m', 'o'] {
        let filtered = picker.frame(&entries);
        picker.handle_key(&entries, &filtered, PickerKey::Char { ch, control: false, alt: false });
    }
    assert_eq!(picker.query(), "mo");
    let filtered = picker.frame(&entries);
    assert_eq!(filtered, vec![1]);
    assert_eq!(
        picker.handle_key(&entries, &filtered, PickerKey::Enter),
        Some(SlashCommandPickerOutcome::Prefill("/model ".to_string()))
    );
}

#[test]
fn picker_enter_without_matches_keeps_the_typed_command() {
    let entries = vec![entry("/status", "Show status", true)];
    let mut picker = SlashCommandPicker::new();
    for ch in ['x', 'y'] {
        let filtered = picker.frame(&entries);
        picker.handle_key(&entries, &filtered, PickerKey::Char { ch, control: false, alt: false });
    }
    let filtered = picker.frame(&entries);
    assert!(filtered.is_empty());
    assert_eq!(
        picker.handle_key(&entries, &filtered, PickerKey::Enter),
        Some(SlashCommandPickerOutcome::Prefill("/xy".to_string()))
    );
    let empty = SlashCommandPicker::new().frame(&[]);
    assert_eq!(
        SlashCommandPicker::new().handle_key(&[], &empty, PickerKey::Enter),
        Some(SlashCommandPickerOutcome::Cancel)
    );
}

#[test]
fn picker_keys_edit_the_query_and_cancel() {
    let entries = vec![entry("/status", "Show status", true), entry("/stats", "Usage", true)];
    let mut picker = SlashCommandPicker::new();
    let filtered = picker.frame(&entries);
    picker.handle_key(&entries, &filtered, PickerKey::Down);
    assert_eq!(picker.handle_key(&entries, &filtered, PickerKey::Tab), None);
    assert_eq!(picker.query(), "stats");
    assert_eq!(picker.selected_index(), 0);
    picker.handle_key(&entries, &filtered, PickerKey::Backspace);
    assert_eq!(picker.query(), "stat");
    picker.handle_key(&entries, &filtered, PickerKey::Char { ch: '/', control: false, alt: false });
    picker.handle_key(&entries, &filtered, PickerKey::Char { ch: 'x', control: false, alt: true });
    assert_eq!(picker.query(), "stat");
    assert_eq!(picker.handle_key(&entries, &filtered, PickerKey::Other), None);
    assert_eq!(
        picker.handle_key(&entries, &filtered, PickerKey::Char { ch: 'c', control: true, alt: false }),
        Some(SlashCommandPickerOutcome::Cancel)
    );
    assert_eq!(
        picker.handle_key(&entries, &filtered, PickerKey::Esc),
        Some(SlashCommandPickerOutcome::Cancel)
    );
}

#[test]
fn picker_frame_clamps_a_stale_selection() {
    let entries = vec![entry("/status", "", true), entry("/stats", "", true), entry("/diff", "", true)];
    let mut picker = SlashCommandPicker::new();
    let filtered = picker.frame(&entries);
    picker.handle_key(&entries, &filtered, PickerKey::Up);
    assert_eq!(picker.selected_index(), 2);
    let filtered = picker.frame(&entries[..2]);
    assert_eq!(filtered.len(), 2);
    assert_eq!(picker.selected_index(), 1);
}

#[test]
fn picker_shortcut_prefills_a_slash_without_entries() {
    assert_eq!(picker_shortcut(&[]), Some(SlashCommandPickerOutcome::Prefill("/".to_string())));
    assert_eq!(picker_shortcut(&[entry("/a", "", true)]), None);
}

#[test]
fn picker_frame_lists_the_window_round_the_selection() {
    let entries: Vec<SlashCommandPickerEntry> =
        (0..14).map(|i| entry(&format!("/c{i}"), &format!("command {i}"), true)).collect();
    let filtered: Vec<usize> = (0..14).collect();
    let lines = picker_frame_lines(&entries, "c", &filtered, 12);
    assert_eq!(lines[0], "Slash command picker");
    assert_eq!(lines[1], "  Filter          /c");
    assert_eq!(lines[4], "");
    assert_eq!(lines.len(), 5 + 10);
    assert_eq!(lines[5], format!("   {:<18} {}", "/c4", "command 4"));
    assert_eq!(lines[13], format!(" > {:<18} {}", "/c12", "command 12"));
    assert_eq!(lines[14], format!("   {:<18} {}", "/c13", "command 13"));

    let lines = picker_frame_lines(&entries, "", &filtered, 0);
    assert_eq!(lines.len(), 5 + 10 + 1);
    assert_eq!(lines[5], format!(" > {:<18} {}", "/c0", "command 0"));
    assert_eq!(lines[15], "  ... 4 more matches");
}

#[test]
fn picker_frame_without_matches_says_so() {
    let lines = picker_frame_lines(&[], "zz", &[], 0);
    assert_eq!(lines.len(), 6);
    assert_eq!(lines[1], "  Filter          /zz");
    assert_eq!(
        lines[5],
        "  No matches      press Backspace to broaden the filter, or Enter to keep the typed command"
    );
}

#[test]
fn editor_results_map_to_outcomes() {
    assert_eq!(
        editor_action(EditorEvent::Line("hi".to_string())),
        EditorAction::Finish(ReadOutcome::Submit("hi".to_string()))
    );
    assert_eq!(
        editor_action(EditorEvent::Interrupted { picker_requested: true, has_input: false }),
        EditorAction::OpenPicker
    );
    assert_eq!(
        editor_action(EditorEvent::Interrupted { picker_requested: false, has_input: true }),
        EditorAction::FinishInterrupted(ReadOutcome::Cancel)
    );
    assert_eq!(
        editor_action(EditorEvent::Interrupted { picker_requested: false, has_input: false }),
        EditorAction::FinishInterrupted(ReadOutcome::Exit)
    );
    assert_eq!(editor_action(EditorEvent::Eof), EditorAction::FinishInterrupted(ReadOutcome::Exit));
}

#[test]
fn picker_outcomes_map_to_what_follows() {
    assert_eq!(
        after_picker(SlashCommandPickerOutcome::Submit("/status".to_string())),
        AfterPicker::Done(ReadOutcome::Submit("/status".to_string()))
    );
    assert_eq!(
        after_picker(SlashCommandPickerOutcome::Prefill("/model ".to_string())),
        AfterPicker::Reread("/model ".to_string())
    );
    assert_eq!(after_picker(SlashCommandPickerOutcome::Cancel), AfterPicker::Done(ReadOutcome::Cancel));
}

#[test]
fn fallback_reads_strip_line_endings() {
    assert_eq!(fallback_outcome(0, ""), ReadOutcome::Exit);
    assert_eq!(fallback_outcome(7, "hello\r\n"), ReadOutcome::Submit("hello".to_string()));
    assert_eq!(fallback_outcome(3, "a\n\n"), ReadOutcome::Submit("a".to_string()));
    assert_eq!(fallback_outcome(1, "\n"), ReadOutcome::Submit(String::new()));
    assert_eq!(fallback_outcome(4, " x \n"), ReadOutcome::Submit(" x ".to_string()));
}

#[test]
fn push_history_ignores_blank_entries() {
    assert!(!should_record_history("   "));
    assert!(!should_record_history(""));
    assert!(should_record_history("/help"));
    assert!(should_record_history("  x "));
}

#[test]
fn typing_a_query_then_enter_picks_the_first_match() {
    let entries = vec![
        entry("/diff", "Inspect git changes and status", true),
        entry("/status", "Show session status", true),
        entry("/model", "Switch model", false),
    ];
    let run = |query: &str| {
        let mut picker = SlashCommandPicker::new();
        for ch in query.chars() {
            let filtered = picker.frame(&entries);
            assert_eq!(picker.handle_key(&entries, &filtered, PickerKey::Char { ch, control: false, alt: false }), None);
        }
        let filtered = picker.frame(&entries);
        picker.handle_key(&entries, &filtered, PickerKey::Enter)
    };
    assert_eq!(run("sta"), Some(SlashCommandPickerOutcome::Submit("/status".to_string())));
    assert_eq!(run("MOD"), Some(SlashCommandPickerOutcome::Prefill("/model ".to_string())));
    assert_eq!(run(" nope "), Some(SlashCommandPickerOutcome::Prefill("/nope".to_string())));
    assert_eq!(run(""), Some(SlashCommandPickerOutcome::Submit("/diff".to_string())));
}
