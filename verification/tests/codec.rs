use dns_core::{Answer, DecodeError, Header, LabelDict, Message};

fn message_bytes() -> Vec<u8> {
    vec![
        144, 155, 1, 0, 0, 2, 0, 0, 0, 0, 0, 0, 3, 97, 98, 99, 17, 108, 111, 110, 103, 97, 115,
        115, 100, 111, 109, 97, 105, 110, 110, 97, 109, 101, 3, 99, 111, 109, 0, 0, 1, 0, 1, 3,
        100, 101, 102, 192, 16, 0, 1, 0, 1,
    ]
}

#[test]
fn test_when_two_questions_with_compression_then_they_are_decompressed_correctly() {
    // Given
    // When
    let request_message = Message::from_bytes(&message_bytes()).unwrap();
    // Then
    assert_eq!(request_message.header.qdcount, 2);
    assert_eq!(request_message.questions.len(), 2);
    assert_eq!(
        request_message.questions[0].qname,
        vec![
            3, 97, 98, 99, 17, 108, 111, 110, 103, 97, 115, 115, 100, 111, 109, 97, 105, 110,
            110, 97, 109, 101, 3, 99, 111, 109
        ]
    );
    assert_eq!(
        request_message.questions[0].label,
        "abc.longassdomainname.com.".to_string()
    );
    assert_eq!(
        request_message.questions[1].qname,
        vec![3, 100, 101, 102, 192, 16]
    );
    assert_eq!(
        request_message.questions[1].label,
        "def.longassdomainname.com.".to_string()
    );
}

#[test]
fn test_when_request_with_compressed_questions_then_response_questions_are_uncompressed() {
    // Given
    let request_message = Message::from_bytes(&message_bytes()).unwrap();
    // When
    let uncompressed_question = request_message.questions[0].uncompressed_question();
    // Then
    assert_eq!(
        uncompressed_question.qname,
        vec![
            3, 97, 98, 99, 17, 108, 111, 110, 103, 97, 115, 115, 100, 111, 109, 97, 105, 110,
            110, 97, 109, 101, 3, 99, 111, 109
        ]
    );
    // When
    let uncompressed_question = request_message.questions[1].uncompressed_question();
    // Then
    assert_eq!(
        uncompressed_question.qname,
        vec![
            3, 100, 101, 102, 17, 108, 111, 110, 103, 97, 115, 115, 100, 111, 109, 97, 105, 110,
            110, 97, 109, 101, 3, 99, 111, 109
        ]
    );
}

#[test]
fn test_when_response_answer_questions_are_uncompressed() {
    // Given
    let request_message = Message::from_bytes(&message_bytes()).unwrap();
    // When
    let answer = Answer::for_question(&request_message.questions[0]);
    // Then
    assert_eq!(
        answer.name,
        vec![
            3, 97, 98, 99, 17, 108, 111, 110, 103, 97, 115, 115, 100, 111, 109, 97, 105, 110,
            110, 97, 109, 101, 3, 99, 111, 109
        ]
    );
    // When
    let answer = Answer::for_question(&request_message.questions[1]);
    // Then
    assert_eq!(
        answer.name,
        vec![
            3, 100, 101, 102, 17, 108, 111, 110, 103, 97, 115, 115, 100, 111, 109, 97, 105, 110,
            110, 97, 109, 101, 3, 99, 111, 109
        ]
    );
}

#[test]
fn header_round_trips_through_its_twelve_bytes() {
    let header = Header {
        id: 0x909b,
        qr: 1,
        opcode: 5,
        aa: 1,
        tc: 0,
        rd: 1,
        ra: 1,
        z: 3,
        rcode: 4,
        qdcount: 2,
        ancount: 513,
        nscount: 7,
        arcount: 65535,
    };
    let bytes = header.to_bytes();
    assert_eq!(bytes.len(), 12);
    let back = Header::from_bytes(&bytes).unwrap();
    assert_eq!(back, header);
}

#[test]
fn header_decode_has_exact_field_layout() {
    let bytes = vec![144u8, 155, 0b1010_1101, 0b1011_0100, 0, 2, 1, 1, 0, 7, 255, 255];
    let h = Header::from_bytes(&bytes).unwrap();
    assert_eq!(h.id, 144 * 256 + 155);
    assert_eq!(h.qr, 1);
    assert_eq!(h.opcode, 0b0101);
    assert_eq!(h.aa, 1);
    assert_eq!(h.tc, 0);
    assert_eq!(h.rd, 1);
    assert_eq!(h.ra, 1);
    assert_eq!(h.z, 3);
    assert_eq!(h.rcode, 4);
    assert_eq!(h.qdcount, 2);
    assert_eq!(h.ancount, 257);
    assert_eq!(h.nscount, 7);
    assert_eq!(h.arcount, 65535);
}

#[test]
fn truncated_header_is_rejected() {
    let bytes = vec![1u8, 2, 3, 4, 5];
    assert_eq!(
        Message::from_bytes(&bytes).unwrap_err(),
        DecodeError::TruncatedInput
    );
    assert_eq!(
        Header::from_bytes(&bytes).unwrap_err(),
        DecodeError::TruncatedInput
    );
}

#[test]
fn name_text_round_trips_through_wire_form() {
    let text = "abc.example.com.";
    let encoded = dns_core::encode_text_bytes(text.as_bytes());
    assert_eq!(
        encoded,
        vec![3, 97, 98, 99, 7, 101, 120, 97, 109, 112, 108, 101, 3, 99, 111, 109]
    );
    let mut buf = encoded.clone();
    buf.push(0);
    let mut dict = LabelDict::new();
    let decoded = dns_core::decode_name(&buf, 0, &mut dict).unwrap();
    assert_eq!(decoded.label, text.to_string());
    assert_eq!(decoded.wire, encoded);
    assert_eq!(decoded.end, buf.len());
}

#[test]
fn pointer_and_inlined_names_decode_to_the_same_text() {
    // the second question of the compressed message points back into the
    // first; the uncompressed message writes the same labels out in full
    let compressed = Message::from_bytes(&message_bytes()).unwrap();
    let mut inlined_bytes = vec![144u8, 155, 1, 0, 0, 2, 0, 0, 0, 0, 0, 0];
    inlined_bytes.extend_from_slice(&[
        3, 97, 98, 99, 17, 108, 111, 110, 103, 97, 115, 115, 100, 111, 109, 97, 105, 110, 110,
        97, 109, 101, 3, 99, 111, 109, 0, 0, 1, 0, 1,
    ]);
    inlined_bytes.extend_from_slice(&[
        3, 100, 101, 102, 17, 108, 111, 110, 103, 97, 115, 115, 100, 111, 109, 97, 105, 110,
        110, 97, 109, 101, 3, 99, 111, 109, 0, 0, 1, 0, 1,
    ]);
    let inlined = Message::from_bytes(&inlined_bytes).unwrap();
    assert_eq!(compressed.questions[1].label, inlined.questions[1].label);
    assert_eq!(compressed.questions[0].label, inlined.questions[0].label);
}

#[test]
fn uncompressing_a_pointer_free_question_is_idempotent() {
    let request_message = Message::from_bytes(&message_bytes()).unwrap();
    let once = request_message.questions[1].uncompressed_question();
    let twice = once.uncompressed_question();
    assert_eq!(twice.qname, once.qname);
    assert_eq!(twice.label, once.label);
    assert_eq!(twice.qtype, once.qtype);
    assert_eq!(twice.qclass, once.qclass);
}

#[test]
fn root_name_decodes_to_empty_text_and_reencodes_empty() {
    let mut bytes = vec![0u8, 1, 0, 0, 0, 1, 0, 0, 0, 0, 0, 0];
    bytes.extend_from_slice(&[0, 0, 1, 0, 1]);
    let message = Message::from_bytes(&bytes).unwrap();
    assert_eq!(message.questions.len(), 1);
    assert_eq!(message.questions[0].label, String::new());
    assert_eq!(message.questions[0].qname, Vec::<u8>::new());
    let uncompressed = message.questions[0].uncompressed_question();
    assert_eq!(uncompressed.qname, Vec::<u8>::new());
}

#[test]
fn pointer_into_a_pointer_terminated_name_resolves_through_the_dictionary() {
    let mut bytes = vec![0u8, 1, 0, 0, 0, 3, 0, 0, 0, 0, 0, 0];
    // first question: "abc.com."
    bytes.extend_from_slice(&[3, 97, 98, 99, 3, 99, 111, 109, 0, 0, 1, 0, 1]);
    // second question: "def" then a pointer to offset 12
    bytes.extend_from_slice(&[3, 100, 101, 102, 192, 12, 0, 1, 0, 1]);
    // third question: a bare pointer to offset 25, the second name's start
    bytes.extend_from_slice(&[192, 25, 0, 1, 0, 1]);
    let message = Message::from_bytes(&bytes).unwrap();
    assert_eq!(message.questions.len(), 3);
    assert_eq!(message.questions[0].label, "abc.com.".to_string());
    assert_eq!(message.questions[1].label, "def.abc.com.".to_string());
    assert_eq!(message.questions[2].label, "def.abc.com.".to_string());
    assert_eq!(message.questions[2].qname, vec![192, 25]);
}

#[test]
fn forward_pointer_is_a_malformed_name() {
    // the pointer references offset 16, which lies beyond itself
    let mut bytes = vec![0u8, 1, 0, 0, 0, 1, 0, 0, 0, 0, 0, 0];
    bytes.extend_from_slice(&[192, 16, 0, 1, 0, 1]);
    assert_eq!(
        Message::from_bytes(&bytes).unwrap_err(),
        DecodeError::MalformedName
    );
}

#[test]
fn pointer_to_unfilled_offset_is_a_malformed_name() {
    // the pointer references offset 2, which no decoded label occupies
    let mut bytes = vec![0u8, 1, 0, 0, 0, 1, 0, 0, 0, 0, 0, 0];
    bytes.extend_from_slice(&[192, 2, 0, 1, 0, 1]);
    assert_eq!(
        Message::from_bytes(&bytes).unwrap_err(),
        DecodeError::MalformedName
    );
}

#[test]
fn length_byte_with_one_top_bit_is_a_malformed_name() {
    let mut bytes = vec![0u8, 1, 0, 0, 0, 1, 0, 0, 0, 0, 0, 0];
    bytes.extend_from_slice(&[0x41, 97, 0, 0, 1, 0, 1]);
    assert_eq!(
        Message::from_bytes(&bytes).unwrap_err(),
        DecodeError::MalformedName
    );
}

#[test]
fn invalid_utf8_label_is_a_malformed_name() {
    // 200 starts a two-byte character but no continuation byte follows
    let mut bytes = vec![0u8, 1, 0, 0, 0, 1, 0, 0, 0, 0, 0, 0];
    bytes.extend_from_slice(&[2, 97, 200, 0, 0, 1, 0, 1]);
    assert_eq!(
        Message::from_bytes(&bytes).unwrap_err(),
        DecodeError::MalformedName
    );
}

#[test]
fn multibyte_utf8_label_decodes_and_reencodes() {
    // one label holding the two-byte character 0xC3 0xA9 and an exclamation mark
    let mut bytes = vec![0u8, 1, 0, 0, 0, 1, 0, 0, 0, 0, 0, 0];
    bytes.extend_from_slice(&[3, 195, 169, 33, 0, 0, 1, 0, 1]);
    let message = Message::from_bytes(&bytes).unwrap();
    assert_eq!(message.questions[0].label, "\u{e9}!.".to_string());
    assert_eq!(message.questions[0].qname, vec![3, 195, 169, 33]);
    let uncompressed = message.questions[0].uncompressed_question();
    assert_eq!(uncompressed.qname, vec![3, 195, 169, 33]);
}

#[test]
fn name_running_past_the_buffer_is_truncated_input() {
    let mut bytes = vec![0u8, 1, 0, 0, 0, 1, 0, 0, 0, 0, 0, 0];
    bytes.extend_from_slice(&[9, 97, 98]);
    assert_eq!(
        Message::from_bytes(&bytes).unwrap_err(),
        DecodeError::TruncatedInput
    );
}

#[test]
fn answer_rdata_running_past_the_buffer_is_truncated_input() {
    let mut bytes = vec![0u8, 1, 0, 0, 0, 0, 0, 1, 0, 0, 0, 0];
    // one answer: name "a.", type 1, class 1, ttl 0, rdlength 4, but only
    // two payload bytes follow
    bytes.extend_from_slice(&[1, 97, 0, 0, 1, 0, 1, 0, 0, 0, 0, 0, 4, 9, 9]);
    assert_eq!(
        Message::from_bytes(&bytes).unwrap_err(),
        DecodeError::TruncatedInput
    );
}

#[test]
fn answers_decode_with_their_payload() {
    let mut bytes = vec![0u8, 1, 0, 0, 0, 0, 0, 1, 0, 0, 0, 0];
    bytes.extend_from_slice(&[
        3, 97, 98, 99, 3, 99, 111, 109, 0, 0, 1, 0, 1, 0, 0, 0, 60, 0, 4, 10, 11, 12, 13,
    ]);
    let message = Message::from_bytes(&bytes).unwrap();
    assert_eq!(message.answers.len(), 1);
    let a = &message.answers[0];
    assert_eq!(a.label, "abc.com.".to_string());
    assert_eq!(a.atype, 1);
    assert_eq!(a.class, 1);
    assert_eq!(a.ttl, 60);
    assert_eq!(a.rdlength, 4);
    assert_eq!(a.rdata, vec![10, 11, 12, 13]);
}

#[test]
fn response_to_standard_query_echoes_header_with_qr_set() {
    let request_message = Message::from_bytes(&message_bytes()).unwrap();
    let answers = dns_core::default_resolver(&request_message.questions);
    let response = request_message.response_message(answers);
    assert_eq!(response.header.qr, 1);
    assert_eq!(response.header.rcode, 0);
    assert_eq!(response.header.id, request_message.header.id);
    assert_eq!(response.header.opcode, request_message.header.opcode);
    assert_eq!(response.header.qdcount, 2);
    assert_eq!(response.header.ancount, 2);
}

#[test]
fn response_to_nonzero_opcode_reports_not_implemented() {
    // a header with opcode 5 and no records
    let bytes = vec![1u8, 2, 5 << 3, 0, 0, 0, 0, 0, 0, 0, 0, 0];
    let request_message = Message::from_bytes(&bytes).unwrap();
    assert_eq!(request_message.header.opcode, 5);
    let response = request_message.response_message(Vec::new());
    assert_eq!(response.header.qr, 1);
    assert_eq!(response.header.rcode, 4);
}

#[test]
fn encoded_response_carries_the_actual_answer_count() {
    let request_message = Message::from_bytes(&message_bytes()).unwrap();
    let answers = dns_core::default_resolver(&request_message.questions);
    let response = request_message.response_message(answers);
    let bytes = response.to_bytes();
    let parsed_header = Header::from_bytes(&bytes).unwrap();
    assert_eq!(parsed_header.ancount, 2);
    assert_eq!(parsed_header.ancount as usize, response.answers.len());
    // the byte stream really holds those two records
    let reparsed = Message::from_bytes(&bytes).unwrap();
    assert_eq!(reparsed.answers.len(), 2);
    assert_eq!(reparsed.questions.len(), 2);
    assert_eq!(
        reparsed.questions[1].label,
        "def.longassdomainname.com.".to_string()
    );
    assert_eq!(reparsed.answers[0].rdata, vec![0, 0, 0, 0]);
}
