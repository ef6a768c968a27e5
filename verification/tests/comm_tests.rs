use se_rust::client::ChannelClient;
use se_rust::comm::{receive_bounded, CommError, Communicator};
use se_rust::matrix::{check_float_text, receive_table, send_table};
use se_rust::server::ChannelServer;

fn pair() -> (ChannelServer, ChannelClient) {
    let (s_tx, s_rx) = crossbeam_channel::unbounded();
    let (c_tx, c_rx) = crossbeam_channel::unbounded();
    (
        ChannelServer::new(s_rx, c_tx),
        ChannelClient::new(c_rx, s_tx),
    )
}

#[test]
fn closing_one_side_fails_the_peer_receive() {
    let (mut server, client) = pair();
    client.close();
    assert_eq!(server.receive(), Err(CommError::TransportIo));
}

#[test]
fn closing_one_side_fails_the_peer_send() {
    let (server, mut client) = pair();
    server.close();
    assert_eq!(client.send(b"ping"), Err(CommError::TransportIo));
}

#[test]
fn bounded_receive_accepts_a_fitting_message() {
    let (mut server, mut client) = pair();
    client.send(b"ping").unwrap();
    assert_eq!(receive_bounded(&mut server, 4), Ok(b"ping".to_vec()));
}

#[test]
fn bounded_receive_discards_an_oversize_message() {
    let (mut server, mut client) = pair();
    client.send(b"too long for the buffer").unwrap();
    client.send(b"next").unwrap();
    assert_eq!(
        receive_bounded(&mut server, 4),
        Err(CommError::BufferTooSmall),
    );
    // The oversize message was consumed; the following one is intact.
    assert_eq!(server.receive(), Ok(b"next".to_vec()));
}

#[test]
fn empty_table_is_refused() {
    let (mut server, _client) = pair();
    assert_eq!(send_table(&mut server, vec![]), Err(CommError::EmptyTable));
}

#[test]
fn unparseable_payload_is_a_malformed_table() {
    let (mut server, mut client) = pair();
    client.send(b"junk").unwrap();
    assert_eq!(receive_table(&mut server), Err(CommError::MalformedTable));
}

#[test]
fn wrong_field_is_a_malformed_table() {
    let (mut server, mut client) = pair();
    client.send(b"{\"rows\":[[\"1e0\"]]}").unwrap();
    assert_eq!(receive_table(&mut server), Err(CommError::MalformedTable));
}

#[test]
fn non_numeric_cell_is_a_malformed_table() {
    let (mut server, mut client) = pair();
    client.send(b"{\"data\":[[\"abc\"]]}").unwrap();
    assert_eq!(receive_table(&mut server), Err(CommError::MalformedTable));
}

#[test]
fn empty_rows_list_decodes_to_an_empty_table() {
    let (mut server, mut client) = pair();
    client.send(b"{\"data\":[]}").unwrap();
    assert_eq!(receive_table(&mut server), Ok(vec![]));
}

#[test]
fn ragged_rows_are_passed_through_on_receive() {
    let (mut server, mut client) = pair();
    client.send(b"{\"data\":[[\"1e0\",\"2e0\"],[\"3e0\"]]}").unwrap();
    assert_eq!(
        receive_table(&mut server),
        Ok(vec![
            vec![b"1e0".to_vec(), b"2e0".to_vec()],
            vec![b"3e0".to_vec()],
        ]),
    );
}

#[test]
fn table_document_has_the_expected_bytes() {
    let (mut server, mut client) = pair();
    let table = vec![vec![b"1e0".to_vec(), b"2e0".to_vec()], vec![
        b"3e0".to_vec(),
        b"4e0".to_vec(),
    ]];
    send_table(&mut client, table).unwrap();
    assert_eq!(
        server.receive(),
        Ok(b"{\"data\":[[\"1e0\",\"2e0\"],[\"3e0\",\"4e0\"]]}".to_vec()),
    );
}

#[test]
fn exponential_rendering_round_trips_exactly() {
    // The decimal-exponential text of an integer-valued double is exact.
    assert_eq!(format!("{:e}", 1.0f64), "1e0");
    assert_eq!("1e0".parse::<f64>().unwrap(), 1.0f64);
    let x = 3.25f64;
    let text = format!("{:e}", x);
    assert_eq!(text.parse::<f64>().unwrap(), x);
}

#[test]
fn float_text_grammar_accepts_what_a_float_parser_accepts() {
    for good in [
        "1e0", "-1.5e-3", "+.5", "3.", "inf", "Infinity", "NaN", "-inf", "12", "0.25", "1E+4",
    ] {
        assert_eq!(check_float_text(&good.as_bytes().to_vec()), true);
        assert!(good.parse::<f64>().is_ok());
    }
    for bad in ["", "1e", ".", "+", "1.2.3", "abc", "0x1", "1 "] {
        assert_eq!(check_float_text(&bad.as_bytes().to_vec()), false);
        assert!(bad.parse::<f64>().is_err());
    }
}
