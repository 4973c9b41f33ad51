use crate::answer::{
    answer_matches, lemma_scan_answers_len, spec_scan_answers, Answer, AnswerModel,
};
use crate::header::{lemma_header_round_trip, spec_header_bytes, spec_parse_header, Header,
    HEADER_SIZE};
use crate::name::LabelDict;
use crate::question::{
    lemma_scan_questions_len, question_matches, spec_scan_questions, Question, QuestionModel,
};
use crate::DecodeError;
use vstd::prelude::*;

verus! {

/// One DNS message: a header and its question and answer sections.  A
/// message is built once, from a received datagram or as a freshly derived
/// response, and never mutated afterwards.
#[derive(Debug)]
pub struct Message {
    pub header: Header,
    pub questions: Vec<Question>,
    pub answers: Vec<Answer>,
}

/// What one decoded message denotes.
pub ghost struct MessageModel {
    pub header: Header,
    pub questions: Seq<QuestionModel>,
    pub answers: Seq<AnswerModel>,
}

/// Parse a whole message: the fixed header, then `qdcount` questions
/// starting right after it, then `ancount` answers, all sharing one label
/// dictionary so that later records may point into earlier ones.
pub open spec fn spec_parse_message(buf: Seq<u8>) -> Result<MessageModel, DecodeError> {
    if buf.len() < 12 {
        Err(DecodeError::TruncatedInput)
    } else {
        let h = spec_parse_header(buf);
        match spec_scan_questions(buf, 12, Seq::empty(), h.qdcount as int) {
            Err(e) => Err(e),
            Ok(qm) => match spec_scan_answers(buf, qm.end, qm.dict, h.ancount as int) {
                Err(e) => Err(e),
                Ok(am) => Ok(
                    MessageModel { header: h, questions: qm.qs, answers: am.answers },
                ),
            },
        }
    }
}

/// The wire bytes of a run of questions, in order.
pub open spec fn spec_questions_bytes(qs: Seq<Question>) -> Seq<u8>
    decreases qs.len(),
{
    if qs.len() == 0 {
        Seq::empty()
    } else {
        qs[0].spec_record_bytes() + spec_questions_bytes(qs.drop_first())
    }
}

/// The wire bytes of a run of answers, in order.
pub open spec fn spec_answers_bytes(answers: Seq<Answer>) -> Seq<u8>
    decreases answers.len(),
{
    if answers.len() == 0 {
        Seq::empty()
    } else {
        answers[0].spec_record_bytes() + spec_answers_bytes(answers.drop_first())
    }
}

/// The full wire form of a message: header bytes, question records,
/// answer records.
pub open spec fn spec_message_bytes(m: Message) -> Seq<u8> {
    spec_header_bytes(m.header) + spec_questions_bytes(m.questions@) + spec_answers_bytes(
        m.answers@,
    )
}

impl Message {
    /// The header is well formed, its counts agree with the record
    /// sections actually held, and every record is well formed.
    pub open spec fn wf(self) -> bool {
        &&& self.header.wf()
        &&& self.header.qdcount == self.questions@.len()
        &&& self.header.ancount == self.answers@.len()
        &&& forall|i: int| 0 <= i < self.questions@.len() ==> (#[trigger] self.questions@[i]).wf()
        &&& forall|i: int| 0 <= i < self.answers@.len() ==> (#[trigger] self.answers@[i]).wf()
    }

    /// Decode a whole message from one datagram's bytes.
    pub fn from_bytes(bytes: &[u8]) -> (r: Result<Message, DecodeError>)
        ensures
            match spec_parse_message(bytes@) {
                Ok(m) => {
                    &&& r is Ok
                    &&& r->Ok_0.header == m.header
                    &&& r->Ok_0.questions@.len() == m.questions.len()
                    &&& forall|j: int|
                        0 <= j < m.questions.len() ==> question_matches(
                            #[trigger] r->Ok_0.questions@[j],
                            m.questions[j],
                        )
                    &&& r->Ok_0.answers@.len() == m.answers.len()
                    &&& forall|j: int|
                        0 <= j < m.answers.len() ==> answer_matches(
                            #[trigger] r->Ok_0.answers@[j],
                            m.answers[j],
                        )
                    &&& r->Ok_0.wf()
                },
                Err(e) => r == Err::<Message, DecodeError>(e),
            },
    {
        let header = match Header::from_bytes(bytes) {
            Ok(h) => h,
            Err(e) => {
                return Err(e);
            },
        };
        let mut dict = LabelDict::new();
        let (questions, questions_end) = match Question::from_bytes(
            bytes,
            header.qdcount,
            HEADER_SIZE,
            &mut dict,
        ) {
            Ok(qs) => qs,
            Err(e) => {
                return Err(e);
            },
        };
        let (answers, _answers_end) = match Answer::from_bytes(
            bytes,
            header.ancount,
            questions_end,
            &mut dict,
        ) {
            Ok(answers) => answers,
            Err(e) => {
                return Err(e);
            },
        };
        proof {
            let qm = spec_scan_questions(
                bytes@,
                12,
                Seq::empty(),
                header.qdcount as int,
            )->Ok_0;
            lemma_scan_questions_len(bytes@, 12, Seq::empty(), header.qdcount as int);
            lemma_scan_answers_len(bytes@, qm.end, qm.dict, header.ancount as int);
        }
        Ok(Message { header, questions, answers })
    }

    /// Derive the response to this request: echo the header with `qr` set,
    /// report "not implemented" for any non-standard opcode, count the
    /// produced answers, and re-expand every echoed question so that no
    /// compression offset of the request's layout leaks into the new
    /// packet.
    pub fn response_message(&self, answers: Vec<Answer>) -> (r: Message)
        requires
            self.wf(),
            answers@.len() <= 0xffff,
            forall|i: int| 0 <= i < answers@.len() ==> (#[trigger] answers@[i]).wf(),
        ensures
            r.header == (Header {
                qr: 1,
                rcode: if self.header.opcode == 0 {
                    0
                } else {
                    4
                },
                ancount: answers@.len() as u16,
                ..self.header
            }),
            r.header.qr == 1,
            r.header.rcode == (if self.header.opcode == 0 {
                0u8
            } else {
                4u8
            }),
            r.questions@.len() == self.questions@.len(),
            forall|i: int|
                0 <= i < self.questions@.len() ==> {
                    let q = #[trigger] r.questions@[i];
                    &&& q.qname@ == crate::name::spec_encode_name(self.questions@[i].text())
                    &&& q.label@ == self.questions@[i].label@
                    &&& q.qtype == self.questions@[i].qtype
                    &&& q.qclass == self.questions@[i].qclass
                },
            r.answers@ == answers@,
            r.wf(),
    {
        let rcode: u8 = if self.header.opcode == 0 {
            0
        } else {
            4
        };
        let response_header = Header {
            qr: 1,
            ancount: answers.len() as u16,
            rcode,
            ..self.header
        };
        let mut questions: Vec<Question> = Vec::new();
        let mut i: usize = 0;
        while i < self.questions.len()
            invariant
                i <= self.questions@.len(),
                self.wf(),
                questions@.len() == i,
                forall|j: int|
                    0 <= j < i ==> {
                        let q = #[trigger] questions@[j];
                        &&& q.qname@ == crate::name::spec_encode_name(self.questions@[j].text())
                        &&& q.label@ == self.questions@[j].label@
                        &&& q.qtype == self.questions@[j].qtype
                        &&& q.qclass == self.questions@[j].qclass
                        &&& q.wf()
                    },
            decreases self.questions@.len() - i,
        {
            questions.push(self.questions[i].uncompressed_question());
            i = i + 1;
        }
        Message { header: response_header, questions, answers }
    }

    /// Emit the message's wire bytes: header, question records, answer
    /// records, in order.
    pub fn to_bytes(&self) -> (r: Vec<u8>)
        requires
            self.header.wf(),
        ensures
            r@ == spec_message_bytes(*self),
    {
        let mut r = self.header.to_bytes();
        let ghost qs = self.questions@;
        let mut i: usize = 0;
        proof {
            assert(qs.skip(0) =~= qs);
        }
        while i < self.questions.len()
            invariant
                i <= qs.len(),
                qs == self.questions@,
                r@ + spec_questions_bytes(qs.skip(i as int)) == spec_header_bytes(self.header)
                    + spec_questions_bytes(qs),
            decreases qs.len() - i,
        {
            proof {
                assert(qs.skip(i as int)[0] == qs[i as int]);
                assert(qs.skip(i as int).drop_first() =~= qs.skip(i as int + 1));
            }
            let qb = self.questions[i].to_bytes();
            r.extend_from_slice(qb.as_slice());
            proof {
                assert(r@ + spec_questions_bytes(qs.skip(i as int + 1)) =~= spec_header_bytes(
                    self.header,
                ) + spec_questions_bytes(qs));
            }
            i = i + 1;
        }
        proof {
            assert(qs.skip(qs.len() as int) =~= Seq::<Question>::empty());
        }
        let ghost answers = self.answers@;
        let ghost mid = r@;
        let mut j: usize = 0;
        proof {
            assert(answers.skip(0) =~= answers);
        }
        while j < self.answers.len()
            invariant
                j <= answers.len(),
                answers == self.answers@,
                r@ + spec_answers_bytes(answers.skip(j as int)) == mid + spec_answers_bytes(
                    answers,
                ),
            decreases answers.len() - j,
        {
            proof {
                assert(answers.skip(j as int)[0] == answers[j as int]);
                assert(answers.skip(j as int).drop_first() =~= answers.skip(j as int + 1));
            }
            let ab = self.answers[j].to_bytes();
            r.extend_from_slice(ab.as_slice());
            proof {
                assert(r@ + spec_answers_bytes(answers.skip(j as int + 1)) =~= mid
                    + spec_answers_bytes(answers));
            }
            j = j + 1;
        }
        proof {
            assert(answers.skip(answers.len() as int) =~= Seq::<Answer>::empty());
            assert(r@ =~= spec_message_bytes(*self));
        }
        r
    }
}

/// The counts a message's encoded bytes carry in their header are the
/// numbers of records actually present in the byte stream: in particular,
/// the `ancount` of an encoded response equals the number of answer
/// records it holds.
pub proof fn lemma_encoded_counts(m: Message)
    requires
        m.wf(),
    ensures
        spec_parse_header(spec_message_bytes(m)) == m.header,
        spec_parse_header(spec_message_bytes(m)).ancount == m.answers@.len(),
        spec_parse_header(spec_message_bytes(m)).qdcount == m.questions@.len(),
{
    let hb = spec_header_bytes(m.header);
    let bytes = spec_message_bytes(m);
    assert forall|i: int| 0 <= i < 12 implies bytes[i] == hb[i] by {
        assert(bytes[i] == (hb + spec_questions_bytes(m.questions@))[i]);
    }
    lemma_header_round_trip(m.header);
    assert(spec_parse_header(bytes) == spec_parse_header(hb));
}

} // verus!
