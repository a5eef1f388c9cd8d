use dns_server::answer::DnsMessageResponse;
use dns_server::error::Error;
use dns_server::header::DnsMessageHeader;
use dns_server::message::respond;
use dns_server::question::DnsMessageQuestion;
use dns_server::resolver::{build_upstream_query, parse_upstream_reply, Resolver};

const ABC_COM: [u8; 9] = [3, b'a', b'b', b'c', 3, b'c', b'o', b'm', 0];

fn request_header(qd_count: u16) -> DnsMessageHeader {
    DnsMessageHeader {
        id: 0x4321,
        qr: false,
        op_code: 0,
        aa: false,
        tc: false,
        rd: true,
        ra: false,
        z: 0,
        rcode: 0,
        qd_count,
        an_count: 0,
        ns_count: 0,
        ar_count: 0,
    }
}

fn three_questions() -> Vec<DnsMessageQuestion> {
    vec![
        DnsMessageQuestion { name: ABC_COM.to_vec(), qtype: 1, class: 1 },
        DnsMessageQuestion { name: vec![2, b'd', b'e', 0], qtype: 1, class: 1 },
        DnsMessageQuestion { name: vec![1, b'f', 0], qtype: 1, class: 1 },
    ]
}

fn answer_to(question: &DnsMessageQuestion, address: [u8; 4]) -> DnsMessageResponse {
    DnsMessageResponse {
        name: question.name.clone(),
        qtype: question.qtype,
        class: question.class,
        ttl: 3600,
        length: 4,
        data: address.to_vec(),
    }
}

fn reply_to(query: &[u8], answer: &DnsMessageResponse) -> Vec<u8> {
    let mut reply = query.to_vec();
    reply[2] |= 0x80;
    reply[7] = 1;
    reply.extend(Vec::<u8>::from(answer));
    reply
}

#[test]
fn upstream_query_is_the_header_with_one_question_and_that_question() {
    let question = DnsMessageQuestion { name: ABC_COM.to_vec(), qtype: 1, class: 1 };
    let query = build_upstream_query(&request_header(3), &question);
    let mut expected = vec![0x43, 0x21, 0x01, 0x00, 0, 1, 0, 0, 0, 0, 0, 0];
    expected.extend(ABC_COM);
    expected.extend([0, 1, 0, 1]);
    assert_eq!(query, expected);
}

#[test]
fn upstream_reply_is_read_behind_header_and_question() {
    let question = DnsMessageQuestion { name: ABC_COM.to_vec(), qtype: 1, class: 1 };
    let query = build_upstream_query(&request_header(1), &question);
    let answer = answer_to(&question, [93, 184, 216, 34]);
    let reply = reply_to(&query, &answer);
    assert_eq!(parse_upstream_reply(&reply, &question).unwrap(), answer);
}

#[test]
fn upstream_reply_without_a_record_is_rejected() {
    let question = DnsMessageQuestion { name: ABC_COM.to_vec(), qtype: 1, class: 1 };
    let query = build_upstream_query(&request_header(1), &question);
    assert!(matches!(parse_upstream_reply(&query, &question), Err(Error::InvalidResponse)));
    assert!(matches!(parse_upstream_reply(&query[..20], &question), Err(Error::InvalidResponse)));
    assert!(matches!(parse_upstream_reply(&[], &question), Err(Error::InvalidResponse)));
    let mut padded = query.clone();
    padded.extend([0u8; 100]);
    assert!(matches!(parse_upstream_reply(&padded, &question), Err(Error::InvalidResponse)));
}

#[test]
fn every_question_is_asked_in_turn_and_every_answer_kept() {
    let header = request_header(3);
    let questions = three_questions();
    let mut resolver = Resolver::new(&header, &questions).unwrap();
    let mut expected = Vec::new();
    let mut asked = 0;
    while let Some(query) = resolver.next_query() {
        let question = &questions[asked];
        assert_eq!(query, build_upstream_query(&header, question));
        let answer = answer_to(question, [10, 0, 0, asked as u8]);
        resolver.on_reply(&reply_to(&query, &answer));
        expected.push(answer);
        asked += 1;
    }
    assert_eq!(asked, 3);
    let answers = resolver.finish().unwrap();
    assert_eq!(answers, expected);

    let answers = Ok(answers);
    let response = respond(&header, &questions, &answers).unwrap();
    let response_header = DnsMessageHeader::try_from(&response[..12]).unwrap();
    assert_eq!(response_header.qd_count, 3);
    assert_eq!(response_header.an_count, 3);
}

#[test]
fn query_is_asked_again_until_its_reply_comes() {
    let header = request_header(3);
    let questions = three_questions();
    let resolver = Resolver::new(&header, &questions).unwrap();
    assert_eq!(resolver.next_query(), resolver.next_query());
    assert_eq!(resolver.next_query().unwrap(), build_upstream_query(&header, &questions[0]));
}

#[test]
fn failure_on_the_second_of_three_questions_answers_nothing() {
    let header = request_header(3);
    let questions = three_questions();
    let mut resolver = Resolver::new(&header, &questions).unwrap();

    let first = resolver.next_query().unwrap();
    resolver.on_reply(&reply_to(&first, &answer_to(&questions[0], [1, 1, 1, 1])));
    let second = resolver.next_query().unwrap();
    assert_eq!(second, build_upstream_query(&header, &questions[1]));
    resolver.on_reply(&second);
    assert_eq!(resolver.next_query(), None);

    let resolution = resolver.finish();
    assert!(matches!(resolution, Err(Error::InvalidResponse)));

    let response = respond(&header, &questions, &resolution).unwrap();
    let mut expected = vec![0x43, 0x21, 0x81, 0x00, 0, 3, 0, 0, 0, 0, 0, 0];
    for question in &questions {
        expected.extend(Vec::<u8>::from(question));
    }
    assert_eq!(response, expected);
}

#[test]
fn reply_after_a_failure_changes_nothing() {
    let header = request_header(3);
    let questions = three_questions();
    let mut resolver = Resolver::new(&header, &questions).unwrap();
    resolver.on_reply(&[]);
    assert_eq!(resolver.next_query(), None);
    let query = build_upstream_query(&header, &questions[0]);
    resolver.on_reply(&reply_to(&query, &answer_to(&questions[0], [1, 1, 1, 1])));
    assert_eq!(resolver.next_query(), None);
    assert!(matches!(resolver.finish(), Err(Error::InvalidResponse)));
}

#[test]
fn transport_failure_ends_the_resolution_with_that_failure() {
    let header = request_header(3);
    let questions = three_questions();
    let mut resolver = Resolver::new(&header, &questions).unwrap();
    let first = resolver.next_query().unwrap();
    resolver.on_reply(&reply_to(&first, &answer_to(&questions[0], [1, 1, 1, 1])));
    resolver.on_transport_error(std::io::Error::new(std::io::ErrorKind::TimedOut, "no reply"));
    assert_eq!(resolver.next_query(), None);
    match resolver.finish() {
        Err(Error::Io(error)) => assert_eq!(error.kind(), std::io::ErrorKind::TimedOut),
        other => panic!("unexpected outcome: {:?}", other),
    }
}

#[test]
fn transport_failure_after_the_last_answer_changes_nothing() {
    let header = request_header(1);
    let questions = vec![DnsMessageQuestion { name: ABC_COM.to_vec(), qtype: 1, class: 1 }];
    let mut resolver = Resolver::new(&header, &questions).unwrap();
    let query = resolver.next_query().unwrap();
    let answer = answer_to(&questions[0], [5, 6, 7, 8]);
    resolver.on_reply(&reply_to(&query, &answer));
    resolver.on_transport_error(std::io::Error::new(std::io::ErrorKind::Other, "late"));
    assert_eq!(resolver.finish().unwrap(), [answer]);
}

#[test]
fn resolution_given_up_early_answers_nothing() {
    let header = request_header(3);
    let questions = three_questions();
    let mut resolver = Resolver::new(&header, &questions).unwrap();
    let first = resolver.next_query().unwrap();
    resolver.on_reply(&reply_to(&first, &answer_to(&questions[0], [1, 1, 1, 1])));
    assert!(matches!(resolver.finish(), Err(Error::InvalidResponse)));
}

#[test]
fn request_without_questions_is_settled_at_once() {
    let header = request_header(0);
    let resolver = Resolver::new(&header, &[]).unwrap();
    assert_eq!(resolver.next_query(), None);
    assert_eq!(resolver.finish().unwrap(), vec![]);
}

#[test]
fn error_converts_from_a_transport_error() {
    let error = Error::from(std::io::Error::new(std::io::ErrorKind::BrokenPipe, "gone"));
    match error {
        Error::Io(source) => assert_eq!(source.kind(), std::io::ErrorKind::BrokenPipe),
        other => panic!("unexpected error: {:?}", other),
    }
}
