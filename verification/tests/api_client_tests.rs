use locallink::api_client::{build_client_request, parse_unsigned, ClientCommand, ClientError};

fn args(list: &[&str]) -> Vec<String> {
    list.iter().map(|a| a.to_string()).collect()
}

fn request(list: &[&str]) -> locallink::api::ApiRequest {
    match build_client_request(&args(list)) {
        Ok(ClientCommand::Send(r)) => r,
        _ => panic!("expected a request"),
    }
}

#[test]
fn no_arguments_or_help_asks_for_help() {
    assert!(matches!(build_client_request(&args(&[])), Ok(ClientCommand::Help)));
    assert!(matches!(build_client_request(&args(&["--help"])), Ok(ClientCommand::Help)));
}

#[test]
fn short_names_map_to_api_commands() {
    assert_eq!(request(&["peers"]).cmd, "list_peers");
    assert_eq!(request(&["trusted"]).cmd, "list_trusted_devices");
    assert_eq!(request(&["reload-addons"]).cmd, "reload_addons");
    assert_eq!(request(&["status"]).cmd, "status");
}

#[test]
fn trust_mac_takes_the_name_from_the_address_by_default() {
    let r = request(&["trust-mac", "--mac", "AA-BB-CC-DD-EE-FF"]);
    assert_eq!(r.cmd, "add_trusted_device");
    assert_eq!(r.mac.as_deref(), Some("AA-BB-CC-DD-EE-FF"));
    assert_eq!(r.name.as_deref(), Some("AA-BB-CC-DD-EE-FF"));
    let r = request(&["trust-mac", "--mac", "x", "--name", "Desk"]);
    assert_eq!(r.name.as_deref(), Some("Desk"));
}

#[test]
fn send_encodes_text_as_base64() {
    let r = request(&["send", "--peer", "laptop", "--service", "chat", "--text", "hi"]);
    assert_eq!(r.cmd, "send_message");
    assert_eq!(r.peer_id.as_deref(), Some("laptop"));
    assert_eq!(r.data_b64.as_deref(), Some("aGk="));
}

#[test]
fn send_reports_what_is_missing() {
    assert!(matches!(
        build_client_request(&args(&["send", "--service", "chat"])),
        Err(ClientError::MissingArgument { name }) if name == "--peer"
    ));
    assert!(matches!(
        build_client_request(&args(&["send", "--peer", "p", "--service", "chat"])),
        Err(ClientError::MissingData)
    ));
    assert!(matches!(
        build_client_request(&args(&["send", "--peer", "p", "--service", "chat", "--data-b64", "%%"])),
        Err(ClientError::BadDataEncoding)
    ));
}

#[test]
fn wait_reads_numbers_with_defaults() {
    let r = request(&["wait", "--max", "7"]);
    assert_eq!(r.cmd, "wait_events");
    assert_eq!(r.max_events, Some(7));
    assert_eq!(r.wait_ms, Some(30000));
    let r = request(&["poll", "--max", "lots"]);
    assert_eq!(r.max_events, Some(100));
}

#[test]
fn channel_close_defaults_its_reason() {
    let r = request(&["channel-close", "--peer", "p", "--service", "s", "--channel", "c"]);
    assert_eq!(r.reason.as_deref(), Some("normal"));
}

#[test]
fn unknown_commands_are_refused() {
    assert!(matches!(
        build_client_request(&args(&["frobnicate"])),
        Err(ClientError::UnknownCommand { command }) if command == "frobnicate"
    ));
}

#[test]
fn unsigned_numbers_parse_as_str_parse_does() {
    assert_eq!(parse_unsigned("42", 100), Some(42));
    assert_eq!(parse_unsigned("+7", 100), Some(7));
    assert_eq!(parse_unsigned("101", 100), None);
    assert_eq!(parse_unsigned("", 100), None);
    assert_eq!(parse_unsigned("-1", 100), None);
    assert_eq!(parse_unsigned("4 2", 100), None);
}
