//! Tests of the store and responder: grouping, selection behaviours over
//! live cursors, and the two lookup failures.

use harplay::behaviour::ResponderBehaviour;
use harplay::req_resp::canonicalize;
use harplay::req_resp::HarResponder;
use harplay::req_resp::InMemoryResponder;
use harplay::req_resp::Request;
use harplay::req_resp::ResponderError;
use harplay::req_resp::Response;

fn request(url: &str) -> Request {
    canonicalize("GET".to_string(), url, Vec::new()).expect("fixture URL must canonicalize")
}

fn response(body: &str) -> Response {
    Response {
        status_code: 200,
        headers: Vec::new(),
        body: Some(body.as_bytes().to_vec()),
    }
}

fn fixture(behaviour: ResponderBehaviour, bodies: &[&str]) -> InMemoryResponder {
    let records: Vec<(Request, Response)> = bodies
        .iter()
        .map(|body| (request("http://harplay/path/"), response(body)))
        .collect();
    InMemoryResponder::new(behaviour, records)
}

fn serve(responder: &mut InMemoryResponder) -> Result<Vec<u8>, ResponderError> {
    let req = request("http://harplay/path/");
    responder
        .respond_to(&req)
        .map(|resp| resp.body.unwrap_or_default())
}

#[test]
fn it_works() {
    let bodies = ["0", "1", "2", "3", "4"];
    for (behaviour, expected) in [
        (ResponderBehaviour::AlwaysFirst, "0"),
        (ResponderBehaviour::AlwaysLast, "4"),
        (ResponderBehaviour::SequentialClamping, "0"),
        (ResponderBehaviour::SequentialOnce, "0"),
        (ResponderBehaviour::SequentialWrapping, "0"),
    ] {
        let mut responder = fixture(behaviour, &bodies);
        assert_eq!(serve(&mut responder).unwrap(), expected.as_bytes());
    }
    let mut responder = fixture(ResponderBehaviour::Random, &bodies);
    assert!(serve(&mut responder).is_ok());
}

#[test]
fn sequential_wrapping_replays_cyclically() {
    let mut responder = fixture(ResponderBehaviour::SequentialWrapping, &["A", "B", "C", "D"]);
    let mut served = Vec::new();
    for _ in 0..6 {
        served.push(String::from_utf8(serve(&mut responder).unwrap()).unwrap());
    }
    assert_eq!(served, vec!["A", "B", "C", "D", "A", "B"]);
}

#[test]
fn sequential_once_serves_each_response_once() {
    let mut responder = fixture(ResponderBehaviour::SequentialOnce, &["A", "B", "C", "D"]);
    for expected in ["A", "B", "C", "D"] {
        assert_eq!(serve(&mut responder).unwrap(), expected.as_bytes());
    }
    assert!(matches!(
        serve(&mut responder),
        Err(ResponderError::ResponseNotFound)
    ));
    assert!(matches!(
        serve(&mut responder),
        Err(ResponderError::ResponseNotFound)
    ));
}

#[test]
fn always_first_and_last_are_idempotent() {
    let mut first = fixture(ResponderBehaviour::AlwaysFirst, &["A", "B", "C", "D"]);
    let mut last = fixture(ResponderBehaviour::AlwaysLast, &["A", "B", "C", "D"]);
    for _ in 0..7 {
        assert_eq!(serve(&mut first).unwrap(), b"A");
        assert_eq!(serve(&mut last).unwrap(), b"D");
    }
}

#[test]
fn always_first_unmoved_by_other_keys() {
    let records = vec![
        (request("http://one.test/a"), response("first-a")),
        (request("http://one.test/a"), response("second-a")),
        (request("http://two.test/b"), response("first-b")),
        (request("http://two.test/b"), response("second-b")),
    ];
    let mut responder = InMemoryResponder::new(ResponderBehaviour::AlwaysFirst, records);
    let req_a = request("https://other-host.test/a");
    let req_b = request("https://other-host.test/b");
    for _ in 0..3 {
        assert_eq!(
            responder.respond_to(&req_a).unwrap().body.unwrap(),
            b"first-a"
        );
        assert_eq!(
            responder.respond_to(&req_b).unwrap().body.unwrap(),
            b"first-b"
        );
    }
}

#[test]
fn random_serves_only_recorded_bodies() {
    let bodies = ["0", "1", "2", "3", "4"];
    let mut responder = fixture(ResponderBehaviour::Random, &bodies);
    let mut seen = [false; 5];
    for _ in 0..10_000 {
        let body = serve(&mut responder).unwrap();
        let index = bodies
            .iter()
            .position(|b| b.as_bytes() == body)
            .expect("a served body is always one of the recorded ones");
        seen[index] = true;
    }
    assert!(seen.iter().all(|s| *s));
}

#[test]
fn unrecorded_url_is_request_not_found() {
    let mut responder = fixture(ResponderBehaviour::SequentialWrapping, &["A"]);
    let miss = request("http://harplay/other-path/");
    assert!(matches!(
        responder.respond_to(&miss),
        Err(ResponderError::RequestNotFound)
    ));
    let mut empty = InMemoryResponder::new(ResponderBehaviour::SequentialWrapping, Vec::new());
    let req = request("http://harplay/path/");
    assert!(matches!(
        empty.respond_to(&req),
        Err(ResponderError::RequestNotFound)
    ));
}

#[test]
fn respond_through_trait_interface() {
    fn serve_with<R: HarResponder>(
        responder: &mut R,
        req: &Request,
    ) -> Result<Response, ResponderError> {
        responder.respond_to(req)
    }
    let mut responder = fixture(ResponderBehaviour::SequentialWrapping, &["A", "B"]);
    let req = request("http://harplay/path/");
    assert_eq!(serve_with(&mut responder, &req).unwrap().body.unwrap(), b"A");
    assert_eq!(serve_with(&mut responder, &req).unwrap().body.unwrap(), b"B");
    assert_eq!(serve_with(&mut responder, &req).unwrap().body.unwrap(), b"A");
}

#[test]
fn served_response_copies_status_headers_and_body() {
    let recorded = Response {
        status_code: 418,
        headers: vec![
            harplay::req_resp::Header {
                name: "x-one".to_string(),
                value: "1".to_string(),
            },
            harplay::req_resp::Header {
                name: "x-two".to_string(),
                value: "2".to_string(),
            },
        ],
        body: Some(b"tea".to_vec()),
    };
    let records = vec![(request("http://harplay/pot"), recorded)];
    let mut responder = InMemoryResponder::new(ResponderBehaviour::AlwaysFirst, records);
    let served = responder.respond_to(&request("https://h2/pot")).unwrap();
    assert_eq!(served.status_code, 418);
    assert_eq!(served.headers.len(), 2);
    assert_eq!(served.headers[0].name, "x-one");
    assert_eq!(served.headers[0].value, "1");
    assert_eq!(served.headers[1].name, "x-two");
    assert_eq!(served.headers[1].value, "2");
    assert_eq!(served.body.unwrap(), b"tea");
}

#[test]
fn groups_form_per_canonical_url() {
    let records = vec![
        (request("http://localhost:3030/a"), response("a1")),
        (request("https://example.org/b"), response("b1")),
        (request("https://example.org/a"), response("a2")),
    ];
    let mut responder = InMemoryResponder::new(ResponderBehaviour::SequentialWrapping, records);
    let req_a = request("http://anything.test/a");
    assert_eq!(responder.respond_to(&req_a).unwrap().body.unwrap(), b"a1");
    assert_eq!(responder.respond_to(&req_a).unwrap().body.unwrap(), b"a2");
    assert_eq!(responder.respond_to(&req_a).unwrap().body.unwrap(), b"a1");
    let req_b = request("http://anything.test/b");
    assert_eq!(responder.respond_to(&req_b).unwrap().body.unwrap(), b"b1");
}
