use sniflow::sni::{
    client_hello_extensions, find_host_name, host_name_of, parse_sni, Extension, Message,
    ServerName,
};

fn extension(kind: u16, data: &[u8]) -> Vec<u8> {
    let mut e = Vec::new();
    e.extend_from_slice(&kind.to_be_bytes());
    e.extend_from_slice(&(data.len() as u16).to_be_bytes());
    e.extend_from_slice(data);
    e
}

fn name_list(entries: &[(u8, &[u8])]) -> Vec<u8> {
    let mut list = Vec::new();
    for (kind, name) in entries {
        list.push(*kind);
        list.extend_from_slice(&(name.len() as u16).to_be_bytes());
        list.extend_from_slice(name);
    }
    let mut data = Vec::new();
    data.extend_from_slice(&(list.len() as u16).to_be_bytes());
    data.extend_from_slice(&list);
    extension(0, &data)
}

fn hello_body(extensions: Option<&[u8]>) -> Vec<u8> {
    let mut b = vec![3, 3];
    b.extend_from_slice(&[7; 32]);
    b.push(0);
    b.extend_from_slice(&[0, 4, 0x13, 0x01, 0x13, 0x02]);
    b.extend_from_slice(&[1, 0]);
    if let Some(extensions) = extensions {
        b.extend_from_slice(&(extensions.len() as u16).to_be_bytes());
        b.extend_from_slice(extensions);
    }
    b
}

fn handshake(kind: u8, body: &[u8]) -> Vec<u8> {
    let mut h = vec![kind];
    h.extend_from_slice(&(body.len() as u32).to_be_bytes()[1..]);
    h.extend_from_slice(body);
    h
}

fn record(kind: u8, body: &[u8]) -> Vec<u8> {
    let mut r = vec![kind, 3, 1];
    r.extend_from_slice(&(body.len() as u16).to_be_bytes());
    r.extend_from_slice(body);
    r
}

fn hello(extensions: &[u8]) -> Vec<u8> {
    record(22, &handshake(1, &hello_body(Some(extensions))))
}

fn hello_for(host: &str) -> Vec<u8> {
    let mut extensions = extension(10, &[0, 2, 0, 29]);
    extensions.extend_from_slice(&name_list(&[(0, host.as_bytes())]));
    extensions.extend_from_slice(&extension(0xff01, &[0]));
    hello(&extensions)
}

#[test]
fn server_name_of_a_client_hello() {
    assert_eq!(parse_sni(&hello_for("example.com")), Some("example.com"));
    assert_eq!(parse_sni(&hello_for("mirrors.kernel.org")), Some("mirrors.kernel.org"));
}

#[test]
fn server_name_alone() {
    assert_eq!(parse_sni(&hello(&name_list(&[(0, b"a.example")]))), Some("a.example"));
}

#[test]
fn server_name_is_borrowed_from_the_payload() {
    let payload = hello_for("example.com");
    let name = parse_sni(&payload).unwrap();
    let start = name.as_ptr() as usize;
    let base = payload.as_ptr() as usize;
    assert!(base <= start && start + name.len() <= base + payload.len());
}

#[test]
fn what_follows_the_record_is_ignored() {
    let mut payload = hello_for("example.com");
    payload.extend_from_slice(&record(23, b"more"));
    assert_eq!(parse_sni(&payload), Some("example.com"));
    let mut payload = hello_for("example.com");
    payload.extend_from_slice(&[22, 3]);
    assert_eq!(parse_sni(&payload), Some("example.com"));
}

#[test]
fn no_payload_no_name() {
    assert_eq!(parse_sni(&[]), None);
}

#[test]
fn not_tls() {
    assert_eq!(parse_sni(b"GET / HTTP/1.1\r\nHost: example.com\r\n\r\n"), None);
    assert_eq!(parse_sni(&[0; 64]), None);
}

#[test]
fn record_cut_short() {
    let payload = hello_for("example.com");
    for keep in [1, 4, 5, 6, 40, payload.len() - 1] {
        assert_eq!(parse_sni(&payload[..keep]), None, "{}", keep);
    }
}

#[test]
fn record_longer_than_allowed() {
    let mut payload = vec![22, 3, 1, 0x41, 0x01];
    payload.extend_from_slice(&handshake(1, &hello_body(Some(&name_list(&[(0, b"example.com")])))));
    payload.resize(5 + 0x4101, 0);
    assert_eq!(parse_sni(&payload), None);
}

#[test]
fn largest_record_is_read() {
    let mut extensions = name_list(&[(0, b"example.com")]);
    let body_without_padding = handshake(1, &hello_body(Some(&extensions))).len();
    let padding = 16640 - body_without_padding - 4;
    extensions.extend_from_slice(&extension(21, &vec![0; padding]));
    let payload = hello(&extensions);
    assert_eq!(payload.len(), 5 + 16640);
    assert_eq!(parse_sni(&payload), Some("example.com"));
}

#[test]
fn message_that_leaves_the_record() {
    let message = handshake(1, &hello_body(Some(&name_list(&[(0, b"example.com")]))));
    let payload = record(22, &message[..message.len() - 3]);
    assert_eq!(parse_sni(&payload), None);
}

#[test]
fn other_records() {
    assert_eq!(parse_sni(&record(21, &[2, 40])), None);
    assert_eq!(parse_sni(&record(20, &[1])), None);
    assert_eq!(parse_sni(&record(23, &hello_for("example.com"))), None);
    assert_eq!(parse_sni(&record(99, &handshake(1, &hello_body(None)))), None);
}

#[test]
fn other_handshake_messages() {
    let extensions = name_list(&[(0, b"example.com")]);
    // a ServerHello with the same body is no ClientHello
    let mut body = vec![3, 3];
    body.extend_from_slice(&[7; 32]);
    body.push(0);
    body.extend_from_slice(&[0x13, 0x01, 0]);
    body.extend_from_slice(&(extensions.len() as u16).to_be_bytes());
    body.extend_from_slice(&extensions);
    assert_eq!(parse_sni(&record(22, &handshake(2, &body))), None);
    assert_eq!(parse_sni(&record(22, &handshake(0, &[]))), None);
}

#[test]
fn only_the_first_message_counts() {
    let mut messages = handshake(0, &[]);
    messages.extend_from_slice(&handshake(1, &hello_body(Some(&name_list(&[(0, b"late.example")])))));
    assert_eq!(parse_sni(&record(22, &messages)), None);
    let mut messages = handshake(1, &hello_body(Some(&name_list(&[(0, b"first.example")]))));
    messages.extend_from_slice(&handshake(1, &hello_body(Some(&name_list(&[(0, b"late.example")])))));
    assert_eq!(parse_sni(&record(22, &messages)), Some("first.example"));
}

#[test]
fn client_hello_without_extensions() {
    assert_eq!(parse_sni(&record(22, &handshake(1, &hello_body(None)))), None);
    assert_eq!(parse_sni(&hello(&[])), None);
}

#[test]
fn client_hello_without_server_name() {
    let mut extensions = extension(10, &[0, 2, 0, 29]);
    extensions.extend_from_slice(&extension(0xff01, &[0]));
    assert_eq!(parse_sni(&hello(&extensions)), None);
}

#[test]
fn server_name_list_without_host_name() {
    assert_eq!(parse_sni(&hello(&name_list(&[]))), None);
    assert_eq!(parse_sni(&hello(&name_list(&[(1, b"example.com")]))), None);
    assert_eq!(parse_sni(&hello(&extension(0, &[]))), None);
}

#[test]
fn host_name_after_another_entry() {
    let list = name_list(&[(7, b"other"), (0, b"example.com"), (0, b"second.example")]);
    assert_eq!(parse_sni(&hello(&list)), Some("example.com"));
}

#[test]
fn host_name_in_a_later_list() {
    let mut extensions = name_list(&[(1, b"no host name")]);
    extensions.extend_from_slice(&name_list(&[(0, b"example.com")]));
    assert_eq!(parse_sni(&hello(&extensions)), Some("example.com"));
}

#[test]
fn host_name_that_is_not_utf8() {
    assert_eq!(parse_sni(&hello(&name_list(&[(0, &[0x66, 0xff, 0x6f])]))), None);
    assert_eq!(parse_sni(&hello(&name_list(&[(0, &[0xc3])]))), None);
    // the search ends at the first host name
    let list = name_list(&[(0, &[0xff]), (0, b"example.com")]);
    assert_eq!(parse_sni(&hello(&list)), None);
}

#[test]
fn host_name_with_other_scripts() {
    let name = "b\u{fc}cher.example";
    assert_eq!(parse_sni(&hello(&name_list(&[(0, name.as_bytes())]))), Some(name));
    assert_eq!(parse_sni(&hello(&name_list(&[(0, b"")]))), Some(""));
}

#[test]
fn extensions_of_the_first_message() {
    let none: Vec<Message> = Vec::new();
    assert_eq!(client_hello_extensions(&none), None);
    let block = [1u8, 2, 3];
    assert_eq!(
        client_hello_extensions(&vec![Message::ClientHello { extensions: Some(&block) }]),
        Some(&block[..])
    );
    assert_eq!(client_hello_extensions(&vec![Message::ClientHello { extensions: None }]), None);
    assert_eq!(
        client_hello_extensions(&vec![
            Message::OtherHandshake,
            Message::ClientHello { extensions: Some(&block) }
        ]),
        None
    );
    assert_eq!(
        client_hello_extensions(&vec![
            Message::Other,
            Message::ClientHello { extensions: Some(&block) }
        ]),
        None
    );
    assert_eq!(
        client_hello_extensions(&vec![
            Message::ClientHello { extensions: Some(&block[1..]) },
            Message::ClientHello { extensions: Some(&block) }
        ]),
        Some(&block[1..])
    );
}

#[test]
fn first_host_name_of_a_list() {
    assert_eq!(find_host_name(&vec![]), None);
    let names = vec![
        ServerName { name_type: 3, data: b"three" },
        ServerName { name_type: 0, data: b"zero" },
        ServerName { name_type: 0, data: b"again" },
    ];
    assert_eq!(find_host_name(&names), Some(&b"zero"[..]));
    assert_eq!(find_host_name(&names[..1].to_vec()), None);
}

#[test]
fn host_name_of_extensions() {
    assert_eq!(host_name_of(&vec![]), None);
    assert_eq!(host_name_of(&vec![Extension::Other]), None);
    assert_eq!(host_name_of(&vec![Extension::ServerName(vec![])]), None);
    let list = vec![
        Extension::Other,
        Extension::ServerName(vec![ServerName { name_type: 1, data: b"x" }]),
        Extension::ServerName(vec![
            ServerName { name_type: 2, data: b"y" },
            ServerName { name_type: 0, data: b"example.com" },
        ]),
        Extension::ServerName(vec![ServerName { name_type: 0, data: b"other.example" }]),
    ];
    assert_eq!(host_name_of(&list), Some("example.com"));
    let list = vec![
        Extension::ServerName(vec![ServerName { name_type: 0, data: &[0x80] }]),
        Extension::ServerName(vec![ServerName { name_type: 0, data: b"example.com" }]),
    ];
    assert_eq!(host_name_of(&list), None);
}
