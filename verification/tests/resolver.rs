use dns_core::{build_query, collect_answers, default_resolver, Answer, DecodeError, Message};

fn request_bytes() -> Vec<u8> {
    vec![
        144, 155, 1, 0, 0, 2, 0, 0, 0, 0, 0, 0, 3, 97, 98, 99, 17, 108, 111, 110, 103, 97, 115,
        115, 100, 111, 109, 97, 105, 110, 110, 97, 109, 101, 3, 99, 111, 109, 0, 0, 1, 0, 1, 3,
        100, 101, 102, 192, 16, 0, 1, 0, 1,
    ]
}

fn reply_bytes() -> Vec<u8> {
    let mut bytes = vec![0u8, 1, 0, 0, 0, 0, 0, 1, 0, 0, 0, 0];
    bytes.extend_from_slice(&[
        3, 97, 98, 99, 3, 99, 111, 109, 0, 0, 1, 0, 1, 0, 0, 0, 60, 0, 4, 10, 11, 12, 13,
    ]);
    bytes
}

#[test]
fn default_resolution_answers_every_question_with_the_placeholder() {
    let request_message = Message::from_bytes(&request_bytes()).unwrap();
    let answers = default_resolver(&request_message.questions);
    assert_eq!(answers.len(), 2);
    for (answer, question) in answers.iter().zip(request_message.questions.iter()) {
        assert_eq!(answer.name, question.uncompressed_question().qname);
        assert_eq!(answer.label, question.label);
        assert_eq!(answer.rdata, vec![0, 0, 0, 0]);
        assert_eq!(answer.atype, 1);
        assert_eq!(answer.class, 1);
        assert_eq!(answer.rdlength, 4);
    }
}

#[test]
fn built_query_is_a_minimal_one_question_message() {
    let request_message = Message::from_bytes(&request_bytes()).unwrap();
    let question = &request_message.questions[1];
    let query = build_query(question);
    let parsed = Message::from_bytes(&query).unwrap();
    assert_eq!(parsed.header.qr, 0);
    assert_eq!(parsed.header.opcode, 0);
    assert_eq!(parsed.header.qdcount, 1);
    assert_eq!(parsed.header.ancount, 0);
    assert_eq!(parsed.questions.len(), 1);
    assert_eq!(parsed.answers.len(), 0);
    assert_eq!(parsed.questions[0].label, "def.longassdomainname.com.".to_string());
    assert_eq!(
        parsed.questions[0].qname,
        question.uncompressed_question().qname
    );
    assert_eq!(parsed.questions[0].qtype, question.qtype);
    assert_eq!(parsed.questions[0].qclass, question.qclass);
}

#[test]
fn collected_answers_append_in_reply_order() {
    let request_message = Message::from_bytes(&request_bytes()).unwrap();
    let mut gathered: Vec<Answer> = vec![Answer::for_question(&request_message.questions[0])];
    collect_answers(&reply_bytes(), &mut gathered).unwrap();
    assert_eq!(gathered.len(), 2);
    assert_eq!(
        gathered[0].name,
        request_message.questions[0].uncompressed_question().qname
    );
    assert_eq!(gathered[1].label, "abc.com.".to_string());
    assert_eq!(gathered[1].rdata, vec![10, 11, 12, 13]);
    assert_eq!(gathered[1].ttl, 60);
}

#[test]
fn forwarding_run_asks_each_question_once_in_order() {
    let request_message = Message::from_bytes(&request_bytes()).unwrap();
    let mut run = dns_core::ForwardingRun::start(request_message.questions.clone());
    let first_query = run.next_query().expect("one query per question");
    let parsed_first = Message::from_bytes(&first_query).unwrap();
    assert_eq!(
        parsed_first.questions[0].label,
        "abc.longassdomainname.com.".to_string()
    );
    run.absorb_reply(&reply_bytes()).unwrap();
    let second_query = run.next_query().expect("one query per question");
    let parsed_second = Message::from_bytes(&second_query).unwrap();
    assert_eq!(
        parsed_second.questions[0].label,
        "def.longassdomainname.com.".to_string()
    );
    run.absorb_reply(&reply_bytes()).unwrap();
    assert!(run.next_query().is_none());
    let answers = run.into_answers();
    assert_eq!(answers.len(), 2);
    assert_eq!(answers[0].label, "abc.com.".to_string());
    assert_eq!(answers[1].label, "abc.com.".to_string());
}

#[test]
fn forwarding_run_fails_the_batch_on_a_bad_reply() {
    let request_message = Message::from_bytes(&request_bytes()).unwrap();
    let mut run = dns_core::ForwardingRun::start(request_message.questions.clone());
    run.next_query().expect("one query per question");
    run.absorb_reply(&reply_bytes()).unwrap();
    run.next_query().expect("one query per question");
    let mut bad_reply = reply_bytes();
    bad_reply[12] = 200;
    let err = run.absorb_reply(&bad_reply).unwrap_err();
    assert_eq!(err, DecodeError::MalformedName);
    // nothing of the bad reply was taken
    assert_eq!(run.into_answers().len(), 1);
}

#[test]
fn failed_reply_decode_leaves_gathered_answers_untouched() {
    let request_message = Message::from_bytes(&request_bytes()).unwrap();
    let mut gathered: Vec<Answer> = vec![Answer::for_question(&request_message.questions[0])];
    let mut bad_reply = reply_bytes();
    bad_reply.truncate(20);
    let err = collect_answers(&bad_reply, &mut gathered).unwrap_err();
    assert_eq!(err, DecodeError::TruncatedInput);
    assert_eq!(gathered.len(), 1);
    assert_eq!(
        gathered[0].name,
        request_message.questions[0].uncompressed_question().qname
    );
}
