use ssh_config_enhance::{connection_label, parse_selection, picker_step};
use ssh_config_enhance::{PickerKey, PickerStep, SelectionError, ServerConfig};

#[test]
fn selection_reads_trimmed_number() {
    assert_eq!(parse_selection(" 2 \n", 3), Ok(2));
    assert_eq!(parse_selection("0", 1), Ok(0));
}

#[test]
fn selection_out_of_range() {
    assert_eq!(parse_selection("3", 3), Err(SelectionError::OutOfRange));
    assert_eq!(parse_selection("0", 0), Err(SelectionError::OutOfRange));
}

#[test]
fn selection_not_a_number() {
    assert_eq!(parse_selection("abc", 3), Err(SelectionError::NotANumber));
    assert_eq!(parse_selection("", 3), Err(SelectionError::NotANumber));
    assert_eq!(parse_selection("-1", 3), Err(SelectionError::NotANumber));
    assert_eq!(parse_selection("99999999999999999999999", 3), Err(SelectionError::NotANumber));
}

#[test]
fn picker_moves_and_stops_at_ends() {
    assert_eq!(picker_step(0, 3, PickerKey::Up), PickerStep::Continue(0));
    assert_eq!(picker_step(1, 3, PickerKey::Up), PickerStep::Continue(0));
    assert_eq!(picker_step(1, 3, PickerKey::Down), PickerStep::Continue(2));
    assert_eq!(picker_step(2, 3, PickerKey::Down), PickerStep::Continue(2));
    assert_eq!(picker_step(0, 1, PickerKey::Down), PickerStep::Continue(0));
    assert_eq!(picker_step(0, 1, PickerKey::Enter), PickerStep::Chosen(0));
}

#[test]
fn picker_chooses_and_cancels() {
    assert_eq!(picker_step(1, 3, PickerKey::Enter), PickerStep::Chosen(1));
    assert_eq!(picker_step(1, 3, PickerKey::Cancel), PickerStep::Cancelled);
    assert_eq!(picker_step(1, 3, PickerKey::Other), PickerStep::Continue(1));
}

#[test]
fn label_shows_user_host_and_port() {
    let h = ServerConfig {
        host_tag: "web".to_string(),
        user: "alice".to_string(),
        hostname: "10.0.0.1".to_string(),
        port: 2222,
        group: String::new(),
        tags: Vec::new(),
        forward_agent: false,
        dynamic_forward: None,
        local_forward: None,
        proxy_jump: None,
    };
    assert_eq!(connection_label(&h), "alice@10.0.0.1:2222");
}
