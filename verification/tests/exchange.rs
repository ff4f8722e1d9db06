use framing::SampleMsg::{A, B, C};
use framing::{Endpoint, MemStream, SampleMsg};

struct TestExchange {
    server_sends: Vec<SampleMsg>,
    client_sends: Vec<SampleMsg>,
}

fn wire_bytes_of(msgs: &Vec<SampleMsg>) -> Vec<u8> {
    let mut ep: Endpoint<MemStream, SampleMsg> = Endpoint::new(MemStream::new()).expect("setup");
    let (num_sent, res) = ep.send_all(msgs);
    assert_eq!(num_sent, msgs.len());
    assert!(res.is_ok());
    let (stream, leftover) = ep.into_inner();
    assert!(leftover.is_empty());
    stream.into_written()
}

fn receive_and_check(name: &str, wire: Vec<u8>, expected: &Vec<SampleMsg>) {
    let mut ep: Endpoint<MemStream, SampleMsg> =
        Endpoint::new(MemStream::with_incoming(wire)).expect(name);
    for e in expected.iter() {
        assert_eq!(e, &ep.recv().expect("danky"));
    }
    assert!(ep.drain_nonblocking().is_empty());
}

fn simple_test(test_name: &'static str, te: TestExchange, num_clients: u32) {
    for _client_id in 1..(num_clients + 1) {
        // one independent endpoint pair per client: each side sends its
        // list, and the peer receives it in order
        let to_server = wire_bytes_of(&te.client_sends);
        let to_client = wire_bytes_of(&te.server_sends);
        receive_and_check(test_name, to_server, &te.client_sends);
        receive_and_check(test_name, to_client, &te.server_sends);
    }
}

#[test]
fn example() {
    // server side sends
    let mut se: Endpoint<MemStream, SampleMsg> = Endpoint::new(MemStream::new()).expect("oh no");
    assert!(se.send(&A).is_ok());
    assert!(se.send(&C(vec![1, 2, 3])).is_ok());
    let (ss, _) = se.into_inner();
    // client side sends
    let mut cl: Endpoint<MemStream, SampleMsg> =
        Endpoint::new(MemStream::new()).expect("connect failed");
    let msgs = vec![B(42), B(22)];
    let (num_sent, res) = cl.send_all(&msgs);
    assert_eq!(num_sent, 2);
    assert!(res.is_ok());
    let (cs, _) = cl.into_inner();
    // each side receives what its peer wrote
    let mut se2: Endpoint<MemStream, SampleMsg> =
        Endpoint::new(MemStream::with_incoming(cs.into_written())).expect("accept failed");
    assert_eq!(se2.recv().unwrap(), B(42));
    assert_eq!(se2.recv().unwrap(), B(22));
    let mut cl2: Endpoint<MemStream, SampleMsg> =
        Endpoint::new(MemStream::with_incoming(ss.into_written())).expect("connect failed");
    assert_eq!(cl2.recv().unwrap(), A);
    assert_eq!(cl2.recv().unwrap(), C(vec![1, 2, 3]));
}

#[test]
fn echoes() {
    let messages = vec![A, B(1), B(4), C(vec![1, 2, 3]), A, C(vec![0, 0]), A, A];
    for m in messages.iter() {
        // the client sends one message
        let mut cl: Endpoint<MemStream, SampleMsg> =
            Endpoint::new(MemStream::new()).expect("connect fail");
        cl.send(m).expect("send");
        let (cs, _) = cl.into_inner();
        // the echo server receives it and bounces it back
        let mut sv: Endpoint<MemStream, SampleMsg> =
            Endpoint::new(MemStream::with_incoming(cs.into_written())).expect("bind fail");
        let echoed = sv.recv().expect("echo recv");
        sv.send(&echoed).expect("echo send");
        let (ss, _) = sv.into_inner();
        // the client receives the echo
        let mut cl2: Endpoint<MemStream, SampleMsg> =
            Endpoint::new(MemStream::with_incoming(ss.into_written())).expect("connect fail");
        assert_eq!(&cl2.recv().unwrap(), m);
    }
}

#[test]
fn a1_server() {
    simple_test(
        "server_only_as",
        TestExchange { server_sends: vec![A, A, A, A], client_sends: vec![] },
        1,
    );
}

#[test]
fn a1_client() {
    simple_test(
        "server_only_as",
        TestExchange { server_sends: vec![], client_sends: vec![A, A, A] },
        1,
    );
}

#[test]
fn a1() {
    simple_test(
        "server_only_as",
        TestExchange { server_sends: vec![A, A], client_sends: vec![A, A, A] },
        1,
    );
}

#[test]
fn a2() {
    simple_test(
        "server_only_as",
        TestExchange { server_sends: vec![A, A], client_sends: vec![A, A, A] },
        2,
    );
}

#[test]
fn a5() {
    simple_test(
        "server_only_as",
        TestExchange { server_sends: vec![A, A], client_sends: vec![A, A, A] },
        5,
    );
}

#[test]
fn b1() {
    simple_test(
        "server_only_as",
        TestExchange { server_sends: vec![B(1), B(2)], client_sends: vec![B(4), B(8), B(9)] },
        1,
    );
}

#[test]
fn b2() {
    simple_test(
        "server_only_as",
        TestExchange { server_sends: vec![B(1), B(2)], client_sends: vec![B(4), B(8), B(9)] },
        2,
    );
}

#[test]
fn ab1() {
    simple_test(
        "server_only_as",
        TestExchange {
            server_sends: vec![A, A, B(1), B(2), A],
            client_sends: vec![B(4), A, B(8), A, B(9)],
        },
        2,
    );
}

#[test]
fn c1() {
    simple_test(
        "server_only_as",
        TestExchange {
            server_sends: vec![C(vec![1, 2, 3])],
            client_sends: vec![C(vec![5, 6]), C(vec![11, 13, 22, 33])],
        },
        1,
    );
}

#[test]
fn c2() {
    simple_test(
        "server_only_as",
        TestExchange {
            server_sends: vec![C(vec![1, 2, 3])],
            client_sends: vec![C(vec![5, 6]), C(vec![11, 13, 22, 33])],
        },
        2,
    );
}

#[test]
fn abc1() {
    simple_test(
        "server_only_as",
        TestExchange {
            server_sends: vec![A, B(99), A, C(vec![1, 2, 3]), B(71)],
            client_sends: vec![C(vec![5, 6]), A, A, C(vec![11, 13, 22, 33]), B(22), B(4)],
        },
        1,
    );
}

#[test]
fn abc5() {
    simple_test(
        "server_only_as",
        TestExchange {
            server_sends: vec![A, B(99), A, C(vec![1, 2, 3]), B(71)],
            client_sends: vec![C(vec![5, 6]), A, A, C(vec![11, 13, 22, 33]), B(22), B(4)],
        },
        2,
    );
}
