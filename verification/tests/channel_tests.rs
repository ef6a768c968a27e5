use se_rust::client::ChannelClient;
use se_rust::comm::Communicator;
use se_rust::matrix::{receive_table, send_table};
use se_rust::server::ChannelServer;

fn pair() -> (ChannelServer, ChannelClient) {
    let (s_tx, s_rx) = crossbeam_channel::unbounded();
    let (c_tx, c_rx) = crossbeam_channel::unbounded();
    (
        ChannelServer::new(s_rx, c_tx),
        ChannelClient::new(c_rx, s_tx),
    )
}

fn text_table(t: &[Vec<f64>]) -> Vec<Vec<Vec<u8>>> {
    t.iter()
        .map(|row| {
            row.iter()
                .map(|x| format!("{:e}", x).into_bytes())
                .collect()
        })
        .collect()
}

fn numeric_table(t: Vec<Vec<Vec<u8>>>) -> Vec<Vec<f64>> {
    t.into_iter()
        .map(|row| {
            row.into_iter()
                .map(|c| String::from_utf8(c).unwrap().parse::<f64>().unwrap())
                .collect()
        })
        .collect()
}

fn ping_raw<C1: Communicator, C2: Communicator>(c1: &mut C1, c2: &mut C2, message: &[u8]) {
    c1.send(message).unwrap();
    let data = c2.receive().unwrap();
    assert_eq!(
        String::from_utf8(data),
        String::from_utf8(message.to_vec()),
    );
}

fn ping_multiple_raw<C1: Communicator, C2: Communicator>(
    c1: &mut C1,
    c2: &mut C2,
    messages: Vec<Vec<u8>>,
) {
    for m in &messages {
        c1.send(m).unwrap();
    }
    for m in messages {
        let data = c2.receive().unwrap();
        assert_eq!(String::from_utf8(data), String::from_utf8(m));
    }
}

fn ping<C1: Communicator, C2: Communicator>(c1: &mut C1, c2: &mut C2) {
    ping_raw(c1, c2, b"ping");
}

fn ping_multiple<C1: Communicator, C2: Communicator>(times: usize, c1: &mut C1, c2: &mut C2) {
    ping_multiple_raw(
        c1,
        c2,
        (0..times)
            .map(|i| format!("ping {}", i).as_bytes().to_vec())
            .collect(),
    );
}

fn ping_with_new_line<C1: Communicator, C2: Communicator>(c1: &mut C1, c2: &mut C2) {
    ping_raw(
        c1,
        c2,
        b"Hello,
ping!",
    );
}

fn ping_with_new_line_multiple<C1: Communicator, C2: Communicator>(
    times: usize,
    c1: &mut C1,
    c2: &mut C2,
) {
    ping_multiple_raw(
        c1,
        c2,
        (0..times)
            .map(|i| {
                format!(
                    "ping
times: {}",
                    i
                )
                .as_bytes()
                .to_vec()
            })
            .collect(),
    );
}

fn ping_matrix<C1: Communicator, C2: Communicator>(c1: &mut C1, c2: &mut C2, matrix: Vec<Vec<f64>>) {
    send_table(c1, text_table(&matrix)).unwrap();
    let data = numeric_table(receive_table(c2).unwrap());
    assert_eq!(data, matrix);
}

fn ping_matrix_multiple<C1: Communicator, C2: Communicator>(
    times: usize,
    c1: &mut C1,
    c2: &mut C2,
    matrix: Vec<Vec<f64>>,
) {
    for _ in 0..times {
        send_table(c1, text_table(&matrix)).unwrap();
    }
    for _ in 0..times {
        let data = numeric_table(receive_table(c2).unwrap());
        assert_eq!(data, matrix);
    }
}

fn tests_base<C1: Communicator, C2: Communicator>(server: &mut C1, client: &mut C2) {
    ping(server, client);
    ping(client, server);

    ping_multiple(2, server, client);
    ping_multiple(2, client, server);

    ping_with_new_line(server, client);
    ping_with_new_line(client, server);

    ping_with_new_line_multiple(2, server, client);
    ping_with_new_line_multiple(2, client, server);

    let matrix = vec![vec![1.0, 2.0], vec![3.0, 4.0]];

    ping_matrix(server, client, matrix.clone());
    ping_matrix(client, server, matrix.clone());

    ping_matrix_multiple(2, server, client, matrix.clone());
    ping_matrix_multiple(2, client, server, matrix.clone());

    let matrix = vec![vec![1.0, 2.0, 3.0], vec![4.0, 5.0, 6.0]];

    ping_matrix(server, client, matrix.clone());
    ping_matrix(client, server, matrix.clone());

    ping_matrix_multiple(2, server, client, matrix.clone());
    ping_matrix_multiple(2, client, server, matrix.clone());
}

#[test]
fn channel_tests() {
    let (mut channel_server, mut channel_client) = pair();
    tests_base(&mut channel_server, &mut channel_client);
}
