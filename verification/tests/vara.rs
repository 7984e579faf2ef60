use coppa::host::vara::command::{VaraCommandPort, MAX_LINE};
use coppa::host::vara::data::VaraDataPort;
use coppa::host::vara::protocol::{VaraCommand, VaraResponse};
use coppa::host::vara::server::VaraServer;
use coppa::host::{Clients, HostEvent, MAX_CONCURRENT_CONNECTIONS};

#[test]
fn test_command_port_new() {
    let _port = VaraCommandPort::new(8300);
}

#[test]
fn test_data_port_new() {
    let port = VaraDataPort::new(8301);
    assert_eq!(port.port, 8301);
}

#[test]
fn test_parse_mycall() {
    assert_eq!(
        VaraCommand::parse("MYCALL VK2ABC"),
        VaraCommand::MyCall("VK2ABC".to_string())
    );
}

#[test]
fn test_parse_connect() {
    assert_eq!(
        VaraCommand::parse("CONNECT VK2ABC VK3DEF"),
        VaraCommand::Connect {
            source: "VK2ABC".to_string(),
            destination: "VK3DEF".to_string(),
        }
    );
}

#[test]
fn test_parse_disconnect() {
    assert_eq!(VaraCommand::parse("DISCONNECT"), VaraCommand::Disconnect);
}

#[test]
fn test_parse_listen() {
    assert_eq!(VaraCommand::parse("LISTEN ON"), VaraCommand::Listen(true));
    assert_eq!(VaraCommand::parse("LISTEN OFF"), VaraCommand::Listen(false));
}

#[test]
fn test_parse_compression() {
    assert_eq!(
        VaraCommand::parse("COMPRESSION ON"),
        VaraCommand::Compression(true)
    );
}

#[test]
fn test_parse_bandwidth() {
    assert_eq!(VaraCommand::parse("BW500"), VaraCommand::Bandwidth(500));
    assert_eq!(VaraCommand::parse("BW2300"), VaraCommand::Bandwidth(2300));
}

#[test]
fn test_parse_version() {
    assert_eq!(VaraCommand::parse("VERSION"), VaraCommand::Version);
}

#[test]
fn test_parse_unknown() {
    match VaraCommand::parse("FOOBAR") {
        VaraCommand::Unknown(s) => assert_eq!(s, "FOOBAR"),
        _ => panic!("Expected Unknown"),
    }
}

#[test]
fn test_format_responses() {
    assert_eq!(VaraResponse::Accepted.format(), "OK\r\n");
    assert_eq!(VaraResponse::Wrong.format(), "WRONG\r\n");
    assert_eq!(
        VaraResponse::Version("Coppa 0.1.0".to_string()).format(),
        "VERSION Coppa 0.1.0\r\n"
    );
    assert_eq!(
        VaraResponse::Connected("VK2ABC".to_string(), "VK3DEF".to_string()).format(),
        "CONNECTED VK2ABC VK3DEF\r\n"
    );
    assert_eq!(VaraResponse::Disconnected.format(), "DISCONNECTED\r\n");
    assert_eq!(VaraResponse::Ptt(true).format(), "PTT ON\r\n");
    assert_eq!(VaraResponse::Buffer(42).format(), "BUFFER 42\r\n");
    assert_eq!(VaraResponse::Busy(false).format(), "BUSY OFF\r\n");
    assert_eq!(VaraResponse::Snr(15).format(), "SNR 15\r\n");
}

#[test]
fn test_case_insensitive() {
    assert_eq!(
        VaraCommand::parse("mycall VK2ABC"),
        VaraCommand::MyCall("VK2ABC".to_string())
    );
}

#[test]
fn test_vara_server_default() {
    let server = VaraServer::default_ports();
    assert_eq!(server.command_port(), 8300);
    assert_eq!(server.data_port(), 8301);
}

#[test]
fn test_vara_server_custom_ports() {
    let server = VaraServer::new(9300, 9301);
    assert_eq!(server.command_port(), 9300);
    assert_eq!(server.data_port(), 9301);
}

#[test]
fn test_vara_server_client_ids() {
    let mut server = VaraServer::default_ports();
    // Command IDs are in the 0x0000_xxxx namespace
    assert_eq!(server.next_cmd_client_id(), 1);
    assert_eq!(server.next_cmd_client_id(), 2);
    assert_eq!(server.next_cmd_client_id(), 3);
    // Data IDs are in the 0x8000_xxxx namespace
    assert_eq!(server.next_data_client_id(), 0x8000_0001);
    assert_eq!(server.next_data_client_id(), 0x8000_0002);
    // The plain method counts with the commands.
    assert_eq!(server.next_client_id(), 4);
}

#[test]
fn commands_are_read_in_any_case() {
    assert_eq!(VaraCommand::parse("  abort \r"), VaraCommand::Abort);
    assert_eq!(VaraCommand::parse("Listen on"), VaraCommand::Listen(true));
    assert_eq!(VaraCommand::parse("MYCALL vk2abc"), VaraCommand::MyCall("vk2abc".to_string()));
    assert_eq!(VaraCommand::parse("LISTEN"), VaraCommand::Listen(false));
    assert_eq!(VaraCommand::parse("BW250"), VaraCommand::Unknown("BW250".to_string()));
    assert_eq!(VaraCommand::parse("CONNECT A"), VaraCommand::Unknown("CONNECT A".to_string()));
}

#[test]
fn negative_ratios_are_written_with_a_sign() {
    assert_eq!(VaraResponse::Snr(-7).format(), "SNR -7\r\n");
    assert_eq!(VaraResponse::Pending.format(), "PENDING\r\n");
}

#[test]
fn lines_become_events() {
    assert_eq!(VaraCommandPort::greeting(), "VERSION Coppa 0.1.0\r\n");
    assert_eq!(
        VaraCommandPort::on_line(3, "CONNECT VK2ABC VK3DEF\r\n"),
        Some(HostEvent::ConnectRequest {
            client_id: 3,
            source: "VK2ABC".to_string(),
            destination: "VK3DEF".to_string(),
        })
    );
    assert_eq!(
        VaraCommandPort::on_line(3, "disconnect"),
        Some(HostEvent::DisconnectRequest { client_id: 3 })
    );
    assert_eq!(
        VaraCommandPort::on_line(3, "LISTEN ON\n"),
        Some(HostEvent::VaraCommand { client_id: 3, command: "LISTEN ON".to_string() })
    );
    assert_eq!(VaraCommandPort::on_line(3, ""), None);
    // A line that fills the buffer counts only with its line end.
    let mut long = "X".repeat(MAX_LINE);
    assert_eq!(VaraCommandPort::on_line(3, &long), None);
    long.replace_range(MAX_LINE - 1.., "\n");
    assert_eq!(
        VaraCommandPort::on_line(3, &long),
        Some(HostEvent::VaraCommand { client_id: 3, command: "X".repeat(MAX_LINE - 1) })
    );
}

#[test]
fn bytes_become_events() {
    assert_eq!(
        VaraDataPort::on_read(9, b"hi"),
        Some(HostEvent::DataReceived { client_id: 9, data: b"hi".to_vec() })
    );
    assert_eq!(VaraDataPort::on_read(9, b""), None);
}

#[test]
fn a_seventeenth_client_is_turned_away() {
    let mut server = VaraServer::with_bind_addr(1, 2, "::1".to_string());
    for i in 0..MAX_CONCURRENT_CONNECTIONS as u32 {
        assert_eq!(server.accept_command(), Some(1 + i));
        assert_eq!(server.accept_data(), Some(0x8000_0001 + i));
    }
    assert_eq!(server.accept_command(), None);
    server.release_command();
    assert_eq!(server.accept_command(), Some(17));
    assert_eq!(server.accept_data(), None);
    server.release_data();
    assert_eq!(server.accept_data(), Some(0x8000_0011));
    assert_eq!(server.command_addr(), "::1:1");
    assert_eq!(server.data_addr(), "::1:2");
}

#[test]
fn client_numbers_wrap_around() {
    let mut clients = Clients::new(u32::MAX);
    assert_eq!(clients.next_id(), u32::MAX);
    assert_eq!(clients.next_id(), 0);
    assert_eq!(clients.accept(), Some(1));
    assert_eq!(clients.active(), 1);
    clients.release();
    assert_eq!(clients.active(), 0);
}
