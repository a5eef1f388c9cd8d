use dns_server::answer::{
    dns_response_from_bytes, encode_answers, synthesize_answer, synthesize_answers,
    DnsMessageResponse,
};
use dns_server::error::Error;
use dns_server::question::DnsMessageQuestion;

const ABC_COM: [u8; 9] = [3, b'a', b'b', b'c', 3, b'c', b'o', b'm', 0];

fn record() -> DnsMessageResponse {
    DnsMessageResponse {
        name: ABC_COM.to_vec(),
        qtype: 1,
        class: 1,
        ttl: 0x0102_0304,
        length: 4,
        data: vec![10, 20, 30, 40],
    }
}

const RECORD_WIRE: [u8; 23] = [
    3, b'a', b'b', b'c', 3, b'c', b'o', b'm', 0, 0, 1, 0, 1, 1, 2, 3, 4, 0, 4, 10, 20, 30, 40,
];

#[test]
fn record_encodes_field_by_field() {
    assert_eq!(Vec::<u8>::from(&record()), RECORD_WIRE);
}

#[test]
fn record_round_trips() {
    let wire = Vec::<u8>::from(&record());
    assert_eq!(dns_response_from_bytes(&wire).unwrap(), record());
}

#[test]
fn record_clone_is_equal() {
    assert_eq!(record().clone(), record());
}

#[test]
fn record_decodes_with_bytes_left_over() {
    let mut wire = RECORD_WIRE.to_vec();
    wire.extend([0u8; 100]);
    assert_eq!(dns_response_from_bytes(&wire).unwrap(), record());
}

#[test]
fn record_without_payload_decodes() {
    let wire = [1, b'a', 0, 0, 16, 0, 1, 0, 0, 0, 60, 0, 0];
    let found = dns_response_from_bytes(&wire).unwrap();
    assert_eq!(
        found,
        DnsMessageResponse {
            name: vec![1, b'a', 0],
            qtype: 16,
            class: 1,
            ttl: 60,
            length: 0,
            data: vec![],
        }
    );
}

#[test]
fn record_length_is_the_length_of_its_payload() {
    let mut wire = RECORD_WIRE.to_vec();
    wire.extend([7u8; 50]);
    wire[18] = 9;
    let found = dns_response_from_bytes(&wire).unwrap();
    assert_eq!(found.length, 9);
    assert_eq!(found.data.len(), 9);
    assert_eq!(found.data, [10, 20, 30, 40, 7, 7, 7, 7, 7]);
}

#[test]
fn record_with_a_leading_zero_is_rejected() {
    let wire = [0, 0, 1, 0, 1, 0, 0, 0, 60, 0, 0];
    assert!(matches!(dns_response_from_bytes(&wire), Err(Error::InvalidResponse)));
}

#[test]
fn record_from_no_bytes_is_rejected() {
    assert!(matches!(dns_response_from_bytes(&[]), Err(Error::InvalidResponse)));
}

#[test]
fn record_without_any_zero_is_rejected() {
    assert!(matches!(dns_response_from_bytes(&[1u8; 64]), Err(Error::InvalidResponse)));
}

#[test]
fn record_cut_in_its_fixed_fields_is_rejected() {
    for keep in 0..19 {
        assert!(matches!(
            dns_response_from_bytes(&RECORD_WIRE[..keep]),
            Err(Error::InvalidResponse)
        ));
    }
}

#[test]
fn record_whose_payload_runs_past_the_end_is_rejected() {
    for keep in 19..23 {
        assert!(matches!(
            dns_response_from_bytes(&RECORD_WIRE[..keep]),
            Err(Error::InvalidResponse)
        ));
    }
    let mut wire = RECORD_WIRE.to_vec();
    wire[17] = 0xFF;
    wire[18] = 0xFF;
    assert!(matches!(dns_response_from_bytes(&wire), Err(Error::InvalidResponse)));
}

#[test]
fn record_name_ends_at_the_first_zero_byte() {
    let wire = [0xC0, 0x0C, 0, 1, 0, 1, 0, 0, 0, 60, 0, 0, 1, 9];
    let found = dns_response_from_bytes(&wire).unwrap();
    assert_eq!(found.name, [0xC0, 0x0C, 0]);
    assert_eq!(found.qtype, 0x0100);
    assert_eq!(found.class, 0x0100);
    assert_eq!(found.ttl, 0x0000_3C00);
    assert_eq!(found.length, 1);
    assert_eq!(found.data, [9]);
}

#[test]
fn made_up_answer_echoes_the_question() {
    let question = DnsMessageQuestion { name: ABC_COM.to_vec(), qtype: 1, class: 1 };
    let answer = synthesize_answer(&question);
    assert_eq!(
        answer,
        DnsMessageResponse {
            name: ABC_COM.to_vec(),
            qtype: 1,
            class: 1,
            ttl: 60,
            length: 4,
            data: vec![8, 8, 8, 8],
        }
    );
}

#[test]
fn made_up_answers_come_one_for_each_question() {
    let questions = vec![
        DnsMessageQuestion { name: ABC_COM.to_vec(), qtype: 1, class: 1 },
        DnsMessageQuestion { name: vec![1, b'x', 0], qtype: 28, class: 3 },
    ];
    let answers = synthesize_answers(&questions);
    assert_eq!(answers.len(), 2);
    for (question, answer) in questions.iter().zip(&answers) {
        assert_eq!(answer.name, question.name);
        assert_eq!(answer.qtype, question.qtype);
        assert_eq!(answer.class, question.class);
        assert_eq!(answer.ttl, 60);
        assert_eq!(answer.length as usize, answer.data.len());
        assert_eq!(answer.data.len(), 4);
    }
    assert!(synthesize_answers(&[]).is_empty());
}

#[test]
fn records_encode_one_behind_the_other() {
    let both = encode_answers(&[record(), record()]);
    assert_eq!(both, [&RECORD_WIRE[..], &RECORD_WIRE[..]].concat());
    assert_eq!(encode_answers(&[]), Vec::<u8>::new());
}
