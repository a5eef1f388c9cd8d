use dns_server::answer::{dns_response_from_bytes, DnsMessageResponse};
use dns_server::error::Error;
use dns_server::header::DnsMessageHeader;
use dns_server::message::{
    answer_without_resolver, assemble_response, build_response_header, decode_request, fits_frame,
    frame, respond,
};
use dns_server::question::{dns_questions_from_bytes, DnsMessageQuestion};

const ABC_COM: [u8; 9] = [3, b'a', b'b', b'c', 3, b'c', b'o', b'm', 0];

fn request_header(op_code: u8, qd_count: u16) -> DnsMessageHeader {
    DnsMessageHeader {
        id: 0x1234,
        qr: false,
        op_code,
        aa: false,
        tc: false,
        rd: true,
        ra: false,
        z: 0,
        rcode: 0,
        qd_count,
        an_count: 0,
        ns_count: 0,
        ar_count: 0,
    }
}

fn abc_com_request(op_code: u8) -> Vec<u8> {
    let mut datagram = <[u8; 12]>::from(&request_header(op_code, 1)).to_vec();
    datagram.extend(ABC_COM);
    datagram.extend([0, 1, 0, 1]);
    datagram
}

#[test]
fn request_without_resolver_gets_one_made_up_answer() {
    let datagram = abc_com_request(0);
    let (header, questions) = decode_request(&datagram).unwrap();
    assert_eq!(header, request_header(0, 1));
    assert_eq!(questions, [DnsMessageQuestion { name: ABC_COM.to_vec(), qtype: 1, class: 1 }]);

    let answers = answer_without_resolver(&header, &questions);
    let response = respond(&header, &questions, &Ok(answers)).unwrap();

    let mut expected = vec![0x12, 0x34, 0x81, 0x00, 0, 1, 0, 1, 0, 0, 0, 0];
    expected.extend(ABC_COM);
    expected.extend([0, 1, 0, 1]);
    expected.extend(ABC_COM);
    expected.extend([0, 1, 0, 1, 0, 0, 0, 60, 0, 4, 8, 8, 8, 8]);
    assert_eq!(response, expected);

    let response_header = DnsMessageHeader::try_from(&response[..12]).unwrap();
    assert_eq!(response_header.id, 0x1234);
    assert!(response_header.qr);
    assert_eq!(response_header.rcode, 0);
    assert_eq!(response_header.qd_count, 1);
    assert_eq!(response_header.an_count, 1);
    assert_eq!(dns_questions_from_bytes(&response, 12, 1).unwrap(), questions);
    let answer = dns_response_from_bytes(&response[25..]).unwrap();
    assert_eq!(answer.name, ABC_COM);
    assert_eq!(answer.qtype, 1);
    assert_eq!(answer.class, 1);
    assert_eq!(answer.ttl, 60);
    assert_eq!(answer.length, 4);
    assert_eq!(answer.data.len(), 4);
}

#[test]
fn request_with_unsupported_opcode_gets_not_implemented_and_no_answer() {
    let datagram = abc_com_request(1);
    let (header, questions) = decode_request(&datagram).unwrap();
    assert_eq!(header.op_code, 1);

    let answers = answer_without_resolver(&header, &questions);
    assert!(answers.is_empty());
    let response = respond(&header, &questions, &Ok(answers)).unwrap();

    let response_header = DnsMessageHeader::try_from(&response[..12]).unwrap();
    assert_eq!(response_header.id, 0x1234);
    assert!(response_header.qr);
    assert_eq!(response_header.op_code, 1);
    assert_eq!(response_header.rcode, 4);
    assert_eq!(response_header.qd_count, 1);
    assert_eq!(response_header.an_count, 0);
    assert_eq!(response[12..], datagram[12..]);
    assert_eq!(response.len(), datagram.len());
}

#[test]
fn request_with_a_compressed_second_question_decodes_to_equal_names() {
    let mut datagram = <[u8; 12]>::from(&request_header(0, 2)).to_vec();
    datagram.extend(ABC_COM);
    datagram.extend([0, 1, 0, 1]);
    datagram.extend([0xC0, 12, 0, 1, 0, 1]);
    let (header, questions) = decode_request(&datagram).unwrap();
    assert_eq!(header.qd_count, 2);
    assert_eq!(questions.len(), 2);
    assert_eq!(questions[0].name, ABC_COM);
    assert_eq!(questions[1].name, questions[0].name);

    let response = respond(&header, &questions, &Ok(vec![])).unwrap();
    let mut expected = vec![0x12, 0x34, 0x81, 0x00, 0, 2, 0, 0, 0, 0, 0, 0];
    expected.extend(ABC_COM);
    expected.extend([0, 1, 0, 1]);
    expected.extend(ABC_COM);
    expected.extend([0, 1, 0, 1]);
    assert_eq!(response, expected);
}

#[test]
fn datagram_shorter_than_a_header_is_rejected() {
    assert!(matches!(decode_request(&[]), Err(Error::InvalidHeader)));
    assert!(matches!(decode_request(&[0u8; 11]), Err(Error::InvalidHeader)));
}

#[test]
fn header_alone_is_a_request_without_questions() {
    let datagram = <[u8; 12]>::from(&request_header(0, 0));
    let (header, questions) = decode_request(&datagram).unwrap();
    assert_eq!(header, request_header(0, 0));
    assert!(questions.is_empty());
}

#[test]
fn datagram_with_fewer_questions_than_counted_is_rejected() {
    let mut datagram = abc_com_request(0);
    datagram[5] = 2;
    assert!(matches!(decode_request(&datagram), Err(Error::InvalidQuestion)));
    let short = abc_com_request(0);
    assert!(matches!(decode_request(&short[..short.len() - 1]), Err(Error::InvalidQuestion)));
    assert!(matches!(decode_request(&short[..12]), Err(Error::InvalidQuestion)));
}

#[test]
fn pointer_in_a_request_counts_from_the_first_header_byte() {
    let mut datagram = <[u8; 12]>::from(&request_header(0, 1)).to_vec();
    datagram[0] = 1;
    datagram[1] = b'i';
    datagram[2] = 0;
    datagram.extend([1, b'q', 0xC0, 0, 0, 1, 0, 1]);
    let (_, questions) = decode_request(&datagram).unwrap();
    assert_eq!(questions[0].name, [1, b'q', 1, b'i', 0]);
}

#[test]
fn response_header_keeps_the_request_and_sets_what_a_response_sets() {
    let request = DnsMessageHeader {
        id: 0xBEEF,
        qr: false,
        op_code: 0,
        aa: true,
        tc: true,
        rd: true,
        ra: true,
        z: 5,
        rcode: 9,
        qd_count: 77,
        an_count: 88,
        ns_count: 3,
        ar_count: 4,
    };
    assert_eq!(
        build_response_header(&request, 2, 1),
        DnsMessageHeader { qr: true, rcode: 0, qd_count: 2, an_count: 1, ..request }
    );
    for op_code in 1u8..16 {
        let other = DnsMessageHeader { op_code, ..request };
        assert_eq!(
            build_response_header(&other, 0, 0),
            DnsMessageHeader { qr: true, rcode: 4, qd_count: 0, an_count: 0, ..other }
        );
    }
}

#[test]
fn response_counts_wrap_at_the_width_of_their_field() {
    let header = build_response_header(&request_header(0, 0), 65535, 65536 + 7);
    assert_eq!(header.qd_count, 65535);
    assert_eq!(header.an_count, 7);
}

#[test]
fn failed_resolution_gives_every_question_and_no_answer() {
    let questions = vec![
        DnsMessageQuestion { name: ABC_COM.to_vec(), qtype: 1, class: 1 },
        DnsMessageQuestion { name: vec![1, b'x', 0], qtype: 1, class: 1 },
    ];
    let header = request_header(0, 2);
    let response = respond(&header, &questions, &Err(Error::InvalidResponse)).unwrap();
    let mut expected = vec![0x12, 0x34, 0x81, 0x00, 0, 2, 0, 0, 0, 0, 0, 0];
    expected.extend(ABC_COM);
    expected.extend([0, 1, 0, 1]);
    expected.extend([1, b'x', 0, 0, 1, 0, 1]);
    assert_eq!(response, expected);
}

#[test]
fn response_holds_header_questions_and_answers_in_that_order() {
    let questions = vec![DnsMessageQuestion { name: vec![1, b'x', 0], qtype: 1, class: 1 }];
    let answers = vec![
        DnsMessageResponse {
            name: vec![1, b'x', 0],
            qtype: 1,
            class: 1,
            ttl: 300,
            length: 4,
            data: vec![1, 2, 3, 4],
        },
        DnsMessageResponse {
            name: vec![1, b'x', 0],
            qtype: 16,
            class: 1,
            ttl: 1,
            length: 2,
            data: vec![1, b't'],
        },
    ];
    let response = assemble_response(&request_header(0, 1), &questions, &answers).unwrap();
    assert_eq!(
        response,
        [
            0x12, 0x34, 0x81, 0x00, 0, 1, 0, 2, 0, 0, 0, 0, // header
            1, b'x', 0, 0, 1, 0, 1, // question
            1, b'x', 0, 0, 1, 0, 1, 0, 0, 1, 44, 0, 4, 1, 2, 3, 4, // first answer
            1, b'x', 0, 0, 16, 0, 1, 0, 0, 0, 1, 0, 2, 1, b't', // second answer
        ]
    );
}

#[test]
fn frame_joins_its_three_parts() {
    let header = [1u8, 2, 3, 4, 5, 6, 7, 8, 9, 10, 11, 12];
    assert_eq!(
        frame(&header, &[20, 21], &[30]),
        [1, 2, 3, 4, 5, 6, 7, 8, 9, 10, 11, 12, 20, 21, 30]
    );
    assert_eq!(frame(&header, &[], &[]), header);
    assert_eq!(frame(&header, &[], &[9, 9]).len(), 14);
}

#[test]
fn frame_fits_up_to_the_longest_buffer() {
    let limit = isize::MAX as usize;
    assert!(fits_frame(0, 0));
    assert!(fits_frame(500, 500));
    assert!(fits_frame(limit - 12, 0));
    assert!(fits_frame(0, limit - 12));
    assert!(fits_frame(limit - 13, 1));
    assert!(!fits_frame(limit - 11, 0));
    assert!(!fits_frame(limit - 12, 1));
    assert!(!fits_frame(usize::MAX, 0));
    assert!(!fits_frame(usize::MAX, usize::MAX));
    assert!(!fits_frame(0, usize::MAX));
}
