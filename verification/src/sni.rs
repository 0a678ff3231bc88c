//! Best-effort search of a TCP payload for the server name of a TLS
//! ClientHello.
//!
//! Only the first record of the payload and the first handshake message of
//! that record are looked at. Whatever goes wrong, the answer is "no name".

use crate::packet::be16;
use tls_parser::{
    TlsExtension, TlsMessage, TlsMessageHandshake, TlsRecordHeader, TlsRecordType, TlsVersion,
};
use vstd::prelude::*;
use vstd::utf8::{decode_utf8, valid_utf8};

verus! {

/// Largest record length that the record layer accepts.
pub const MAX_RECORD_LEN: u16 = 16640;

/// Length of a record header.
pub const RECORD_HEADER_LEN: usize = 5;

/// The name type of a host name in a server name list.
pub const HOST_NAME: u8 = 0;

/// The mathematical content of a [`RawRecord`].
pub struct RawRecordView {
    pub record_type: u8,
    pub version: u16,
    pub len: u16,
    pub data: Seq<u8>,
}

/// A TLS record: its header, and its body still unread.
#[derive(Clone, Copy, Debug)]
pub struct RawRecord<'a> {
    pub record_type: u8,
    pub version: u16,
    pub len: u16,
    pub data: &'a [u8],
}

impl<'a> View for RawRecord<'a> {
    type V = RawRecordView;

    open spec fn view(&self) -> RawRecordView {
        RawRecordView {
            record_type: self.record_type,
            version: self.version,
            len: self.len,
            data: self.data@,
        }
    }
}

/// The mathematical content of a [`Message`].
pub enum MessageView {
    ClientHello { extensions: Option<Seq<u8>> },
    OtherHandshake,
    Other,
}

/// What is read of a message of a TLS record: whether it is a ClientHello,
/// and if so its block of extensions, still unread.
#[derive(Clone, Copy, Debug)]
pub enum Message<'a> {
    ClientHello { extensions: Option<&'a [u8]> },
    OtherHandshake,
    Other,
}

impl<'a> View for Message<'a> {
    type V = MessageView;

    open spec fn view(&self) -> MessageView {
        match *self {
            Message::ClientHello { extensions: Some(ext) } => MessageView::ClientHello {
                extensions: Some(ext@),
            },
            Message::ClientHello { extensions: None } => MessageView::ClientHello {
                extensions: None,
            },
            Message::OtherHandshake => MessageView::OtherHandshake,
            Message::Other => MessageView::Other,
        }
    }
}

/// The mathematical content of a [`ServerName`].
pub struct ServerNameView {
    pub name_type: u8,
    pub data: Seq<u8>,
}

/// An entry of a server name list.
#[derive(Clone, Copy, Debug)]
pub struct ServerName<'a> {
    pub name_type: u8,
    pub data: &'a [u8],
}

impl<'a> View for ServerName<'a> {
    type V = ServerNameView;

    open spec fn view(&self) -> ServerNameView {
        ServerNameView { name_type: self.name_type, data: self.data@ }
    }
}

/// The mathematical content of an [`Extension`].
pub enum ExtensionView {
    ServerName(Seq<ServerNameView>),
    Other,
}

/// What is read of a TLS extension: whether it is a server name list, and
/// if so its entries.
#[derive(Debug)]
pub enum Extension<'a> {
    ServerName(Vec<ServerName<'a>>),
    Other,
}

impl<'a> View for Extension<'a> {
    type V = ExtensionView;

    open spec fn view(&self) -> ExtensionView {
        match self {
            Extension::ServerName(names) => ExtensionView::ServerName(names.deep_view()),
            Extension::Other => ExtensionView::Other,
        }
    }
}

impl<'a> DeepView for ServerName<'a> {
    type V = ServerNameView;

    open spec fn deep_view(&self) -> ServerNameView {
        self@
    }
}

impl<'a> DeepView for Message<'a> {
    type V = MessageView;

    open spec fn deep_view(&self) -> MessageView {
        self@
    }
}

impl<'a> DeepView for Extension<'a> {
    type V = ExtensionView;

    open spec fn deep_view(&self) -> ExtensionView {
        self@
    }
}

/// The first record of `payload`: five octets of header, of which the last
/// two give the length of the body, and the body, which must be at hand in
/// full.
pub open spec fn raw_record(payload: Seq<u8>) -> Option<RawRecordView> {
    if payload.len() >= RECORD_HEADER_LEN && be16(payload, 3) <= MAX_RECORD_LEN
        && RECORD_HEADER_LEN + be16(payload, 3) <= payload.len() {
        Some(
            RawRecordView {
                record_type: payload[0],
                version: be16(payload, 1) as u16,
                len: be16(payload, 3) as u16,
                data: payload.subrange(
                    RECORD_HEADER_LEN as int,
                    RECORD_HEADER_LEN + be16(payload, 3),
                ),
            },
        )
    } else {
        None
    }
}

/// The messages that `parse_tls_record_with_header` of tls-parser reads in
/// the body of a record with the given header.
pub uninterp spec fn tls_record_messages(
    record_type: u8,
    version: u16,
    len: u16,
    data: Seq<u8>,
) -> Option<Seq<MessageView>>;

/// The extensions that `parse_tls_extensions` of tls-parser reads in a block
/// of extensions.
pub uninterp spec fn tls_extensions(block: Seq<u8>) -> Option<Seq<ExtensionView>>;

/// The block of extensions of the first message, if that is a ClientHello
/// with such a block.
pub open spec fn hello_extensions(messages: Seq<MessageView>) -> Option<Seq<u8>> {
    if messages.len() > 0 {
        match messages[0] {
            MessageView::ClientHello { extensions } => extensions,
            _ => None,
        }
    } else {
        None
    }
}

/// The first entry of a server name list that is a host name.
pub open spec fn first_host_name(names: Seq<ServerNameView>) -> Option<Seq<u8>>
    decreases names.len(),
{
    if names.len() == 0 {
        None
    } else if names[0].name_type == HOST_NAME {
        Some(names[0].data)
    } else {
        first_host_name(names.drop_first())
    }
}

/// The first host name of the first server name list that has one.
pub open spec fn host_name_bytes(extensions: Seq<ExtensionView>) -> Option<Seq<u8>>
    decreases extensions.len(),
{
    if extensions.len() == 0 {
        None
    } else {
        match extensions[0] {
            ExtensionView::ServerName(names) => match first_host_name(names) {
                Some(name) => Some(name),
                None => host_name_bytes(extensions.drop_first()),
            },
            ExtensionView::Other => host_name_bytes(extensions.drop_first()),
        }
    }
}

/// The text of a host name, if it is UTF-8.
pub open spec fn decoded(name: Seq<u8>) -> Option<Seq<char>> {
    if valid_utf8(name) {
        Some(decode_utf8(name))
    } else {
        None
    }
}

/// The host name that a list of extensions announces: the first one found,
/// provided that it is UTF-8.
pub open spec fn host_name(extensions: Seq<ExtensionView>) -> Option<Seq<char>> {
    match host_name_bytes(extensions) {
        Some(name) => decoded(name),
        None => None,
    }
}

/// The server name that a TCP payload announces.
pub open spec fn sni(payload: Seq<u8>) -> Option<Seq<char>> {
    match raw_record(payload) {
        Some(record) => match tls_record_messages(
            record.record_type,
            record.version,
            record.len,
            record.data,
        ) {
            Some(messages) => match hello_extensions(messages) {
                Some(block) => match tls_extensions(block) {
                    Some(extensions) => host_name(extensions),
                    None => None,
                },
                None => None,
            },
            None => None,
        },
        None => None,
    }
}

/// Calls `parse_tls_raw_record` of tls-parser.
///
/// It reads the record type from the first octet, the version and the
/// length as big-endian numbers from the next four, and fails if the length
/// exceeds 16640 or if fewer octets than that follow the header.
#[verifier::external_body]
fn split_record<'a>(payload: &'a [u8]) -> (r: Option<RawRecord<'a>>)
    ensures
        match r {
            Some(record) => raw_record(payload@) == Some(record@),
            None => raw_record(payload@) is None,
        },
{
    match tls_parser::parse_tls_raw_record(payload) {
        Ok((_, raw)) => Some(
            RawRecord {
                record_type: raw.hdr.record_type.0,
                version: raw.hdr.version.0,
                len: raw.hdr.len,
                data: raw.data,
            },
        ),
        Err(_) => None,
    }
}

/// Calls `parse_tls_record_with_header` of tls-parser on the body and the
/// header of `record`, and says of each message whether it is a ClientHello.
#[verifier::external_body]
fn record_messages<'a>(record: &RawRecord<'a>) -> (r: Option<Vec<Message<'a>>>)
    ensures
        match r {
            Some(messages) => tls_record_messages(
                record.record_type,
                record.version,
                record.len,
                record.data@,
            ) == Some(messages.deep_view()),
            None => tls_record_messages(
                record.record_type,
                record.version,
                record.len,
                record.data@,
            ) is None,
        },
{
    let hdr = TlsRecordHeader {
        record_type: TlsRecordType(record.record_type),
        version: TlsVersion(record.version),
        len: record.len,
    };
    match tls_parser::parse_tls_record_with_header(record.data, &hdr) {
        Ok((_, list)) => Some(list.into_iter().map(|m| match m {
            TlsMessage::Handshake(TlsMessageHandshake::ClientHello(hello)) =>
                Message::ClientHello { extensions: hello.ext },
            TlsMessage::Handshake(_) => Message::OtherHandshake,
            _ => Message::Other,
        }).collect()),
        Err(_) => None,
    }
}

/// Calls `parse_tls_extensions` of tls-parser, and says of each extension
/// whether it is a server name list.
#[verifier::external_body]
fn extensions<'a>(block: &'a [u8]) -> (r: Option<Vec<Extension<'a>>>)
    ensures
        match r {
            Some(list) => tls_extensions(block@) == Some(list.deep_view()),
            None => tls_extensions(block@) is None,
        },
{
    match tls_parser::parse_tls_extensions(block) {
        Ok((_, list)) => Some(list.into_iter().map(|e| match e {
            TlsExtension::SNI(names) => Extension::ServerName(
                names.into_iter().map(|(t, d)| ServerName { name_type: t.0, data: d }).collect(),
            ),
            _ => Extension::Other,
        }).collect()),
        Err(_) => None,
    }
}

/// Calls `core::str::from_utf8`, which accepts exactly the well-formed
/// UTF-8 and gives the text that the octets encode.
#[verifier::external_body]
fn utf8_text<'a>(bytes: &'a [u8]) -> (r: Option<&'a str>)
    ensures
        match r {
            Some(text) => decoded(bytes@) == Some(text@),
            None => decoded(bytes@) is None,
        },
{
    core::str::from_utf8(bytes).ok()
}

/// The block of extensions of the first message of a record, if that
/// message is a ClientHello with such a block.
pub fn client_hello_extensions<'a>(messages: &Vec<Message<'a>>) -> (r: Option<&'a [u8]>)
    ensures
        match r {
            Some(block) => hello_extensions(messages.deep_view()) == Some(block@),
            None => hello_extensions(messages.deep_view()) is None,
        },
{
    if messages.len() == 0 {
        return None;
    }
    match messages[0] {
        Message::ClientHello { extensions } => extensions,
        _ => None,
    }
}

/// The first entry of a server name list that is a host name.
pub fn find_host_name<'a>(names: &Vec<ServerName<'a>>) -> (r: Option<&'a [u8]>)
    ensures
        match r {
            Some(name) => first_host_name(names.deep_view()) == Some(name@),
            None => first_host_name(names.deep_view()) is None,
        },
{
    let mut i: usize = 0;
    assert(names.deep_view().skip(0) == names.deep_view());
    while i < names.len()
        invariant
            i <= names.len(),
            first_host_name(names.deep_view()) == first_host_name(
                names.deep_view().skip(i as int),
            ),
        decreases names.len() - i,
    {
        let ghost rest = names.deep_view().skip(i as int);
        assert(rest.drop_first() == names.deep_view().skip(i + 1));
        assert(rest[0] == names[i as int]@);
        if names[i].name_type == HOST_NAME {
            return Some(names[i].data);
        }
        i += 1;
    }
    None
}

/// The host name that a list of extensions announces.
///
/// The search ends at the first host name, whether it is UTF-8 or not.
pub fn host_name_of<'a>(extensions: &Vec<Extension<'a>>) -> (r: Option<&'a str>)
    ensures
        match r {
            Some(name) => host_name(extensions.deep_view()) == Some(name@),
            None => host_name(extensions.deep_view()) is None,
        },
{
    let mut i: usize = 0;
    assert(extensions.deep_view().skip(0) == extensions.deep_view());
    while i < extensions.len()
        invariant
            i <= extensions.len(),
            host_name_bytes(extensions.deep_view()) == host_name_bytes(
                extensions.deep_view().skip(i as int),
            ),
        decreases extensions.len() - i,
    {
        let ghost rest = extensions.deep_view().skip(i as int);
        assert(rest.drop_first() == extensions.deep_view().skip(i + 1));
        assert(rest[0] == extensions[i as int]@);
        match &extensions[i] {
            Extension::ServerName(names) => {
                match find_host_name(names) {
                    Some(name) => {
                        return utf8_text(name);
                    },
                    None => {},
                }
            },
            Extension::Other => {},
        }
        i += 1;
    }
    None
}

/// The server name that a TCP payload announces, if the payload starts with
/// a whole TLS record whose first message is a ClientHello that holds one.
pub fn parse_sni<'a>(payload: &'a [u8]) -> (r: Option<&'a str>)
    ensures
        match r {
            Some(name) => sni(payload@) == Some(name@),
            None => sni(payload@) is None,
        },
{
    let record = match split_record(payload) {
        Some(record) => record,
        None => {
            return None;
        },
    };
    let messages = match record_messages(&record) {
        Some(messages) => messages,
        None => {
            return None;
        },
    };
    let block = match client_hello_extensions(&messages) {
        Some(block) => block,
        None => {
            return None;
        },
    };
    let list = match extensions(block) {
        Some(list) => list,
        None => {
            return None;
        },
    };
    host_name_of(&list)
}

} // verus!
