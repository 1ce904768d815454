use ocdscope::openocd::{parse_channel_line, parse_rtt_channels, RTTChannelDirection};

fn lines(text: &[&str]) -> Vec<String> {
    text.iter().map(|l| l.to_string()).collect()
}

#[test]
fn parses_channel_listing() {
    let listing = lines(&[
        "Channels: up=3, down=3\r\n",
        "Up-channels:\r\n",
        "0: Terminal 1024 0\r\n",
        "2: JScope_T4F4F4F4F4 4096 0\r\n",
        "Down-channels:\r\n",
        "0: Terminal 16 0\r\n",
    ]);
    let channels = parse_rtt_channels(&listing);
    assert_eq!(channels.len(), 3);
    assert_eq!(channels[0].id, 0);
    assert_eq!(channels[0].name, "Terminal");
    assert_eq!(channels[0].buffer_size, 1024);
    assert_eq!(channels[0].direction, RTTChannelDirection::Up);
    assert_eq!(channels[1].id, 2);
    assert_eq!(channels[1].name, "JScope_T4F4F4F4F4");
    assert_eq!(channels[1].buffer_size, 4096);
    assert_eq!(channels[1].flags, 0);
    assert_eq!(channels[2].direction, RTTChannelDirection::Down);
    assert_eq!(channels[2].buffer_size, 16);
}

#[test]
fn channel_lines_before_a_header_are_skipped() {
    let listing = lines(&["1: Early 8 0", "garbage", "Down-channels:", "x: Bad 1 1", "3: Late 32 2"]);
    let channels = parse_rtt_channels(&listing);
    assert_eq!(channels.len(), 1);
    assert_eq!(channels[0].id, 3);
    assert_eq!(channels[0].flags, 2);
    assert!(parse_rtt_channels(&[]).is_empty());
}

#[test]
fn channel_line_fields() {
    assert_eq!(
        parse_channel_line("7: Name 10 20 extra"),
        Some((7, "Name".to_string(), 10, 20))
    );
    assert_eq!(parse_channel_line("+7:   Name\t10 20\r\n"), Some((7, "Name".to_string(), 10, 20)));
    assert_eq!(parse_channel_line("7: Name 10"), None);
    assert_eq!(parse_channel_line("7 Name 10 20"), None);
    assert_eq!(parse_channel_line("4294967296: Name 10 20"), None);
    assert_eq!(parse_channel_line("4294967295: Name 10 20"), Some((4294967295, "Name".to_string(), 10, 20)));
    assert_eq!(parse_channel_line("1: Name 10: 20"), None);
}

use ocdscope::openocd::{
    command_line, parse_adapter_speed, parse_control_block_address, reports_halt,
    wait_timeout_error, TelnetInterface, TelnetInterfaceError,
};

#[test]
fn console_lines_and_prompt() {
    let mut console = TelnetInterface::new();
    assert_eq!(console.read_into_buffer(b"Open On-Chip\x00 Debugger\r\n> "), 26);
    assert!(console.take_prompt());
    assert!(!console.take_prompt());
    console.read_into_buffer(b"rtt start\r\n\x08\x08log\r\nrtt: Control block found at 0x20000410\r\npartial");
    assert_eq!(console.read_line(), Some(b"rtt start\r\n".to_vec()));
    assert_eq!(
        console.read_line(),
        Some(b"rtt: Control block found at 0x20000410\r\n".to_vec())
    );
    assert_eq!(console.read_line(), None);
    console.read_into_buffer(b"\r\n");
    assert_eq!(console.read_line(), Some(b"partial\r\n".to_vec()));
}

#[test]
fn console_replies() {
    assert_eq!(command_line("halt"), b"halt\r\n".to_vec());
    assert_eq!(
        parse_control_block_address(b"rtt: Control block found at 0x20000410\r\n"),
        Some(0x20000410)
    );
    assert_eq!(parse_control_block_address(b"rtt: Control block found at 0x20000410"), None);
    assert_eq!(parse_adapter_speed(b"adapter speed: 1000 kHz\r\n"), Some(1000));
    assert_eq!(parse_adapter_speed(b"adapter speed: fast kHz\r\n"), None);
    assert!(reports_halt(b"[stm32.cpu] halted due to debug-request, current mode: Thread\r\n"));
    assert!(!reports_halt(b"target running\r\n"));
}

#[test]
fn wait_errors() {
    assert!(matches!(wait_timeout_error(Vec::new()), TelnetInterfaceError::Timeout));
    match wait_timeout_error(b"Error: no target\r\n".to_vec()) {
        TelnetInterfaceError::UnexpectedResponse(lines) => assert_eq!(lines, b"Error: no target\r\n".to_vec()),
        other => panic!("unexpected {:?}", other),
    }
    let mut console = TelnetInterface::new();
    console.set_timeout(100);
    assert_eq!(console.timeout(), 100);
}
