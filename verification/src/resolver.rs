use crate::answer::{answer_matches, Answer, DEFAULT_ANSWER_TTL};
use crate::header::Header;
use crate::message::{spec_parse_message, Message};
use crate::name::spec_encode_name;
use crate::question::Question;
use crate::wire::spec_u16_bytes;
use crate::DecodeError;
use vstd::prelude::*;

verus! {

/// How answers are produced: synthesized locally, or fetched from an
/// upstream nameserver at the given `host:port` address.
pub enum Resolver {
    Default,
    Custom(String),
}

/// Synthesize one local answer per question, in order.  Default
/// resolution cannot fail.
pub fn default_resolver(questions: &Vec<Question>) -> (r: Vec<Answer>)
    requires
        forall|i: int| 0 <= i < questions@.len() ==> (#[trigger] questions@[i]).wf(),
    ensures
        r@.len() == questions@.len(),
        forall|i: int|
            0 <= i < questions@.len() ==> {
                let a = #[trigger] r@[i];
                &&& a.name@ == spec_encode_name(questions@[i].text())
                &&& a.label@ == questions@[i].label@
                &&& a.atype == 1
                &&& a.class == 1
                &&& a.ttl == DEFAULT_ANSWER_TTL
                &&& a.rdata@ == seq![0u8, 0u8, 0u8, 0u8]
                &&& a.wf()
            },
{
    let mut r: Vec<Answer> = Vec::new();
    let mut i: usize = 0;
    while i < questions.len()
        invariant
            i <= questions@.len(),
            forall|k: int| 0 <= k < questions@.len() ==> (#[trigger] questions@[k]).wf(),
            r@.len() == i,
            forall|k: int|
                0 <= k < i ==> {
                    let a = #[trigger] r@[k];
                    &&& a.name@ == spec_encode_name(questions@[k].text())
                    &&& a.label@ == questions@[k].label@
                    &&& a.atype == 1
                    &&& a.class == 1
                    &&& a.ttl == DEFAULT_ANSWER_TTL
                    &&& a.rdata@ == seq![0u8, 0u8, 0u8, 0u8]
                    &&& a.wf()
                },
        decreases questions@.len() - i,
    {
        r.push(Answer::for_question(&questions[i]));
        i = i + 1;
    }
    r
}

/// Relies on `rand::random`: a 16-bit transaction id drawn from the
/// thread-local generator.  Nothing is assumed of its value.
#[verifier::external_body]
fn fresh_transaction_id() -> u16 {
    rand::random::<u16>()
}

/// The header of a minimal one-question upstream query under transaction
/// id `id`: all flags clear, one question, no other records.
pub open spec fn spec_query_header(id: u16) -> Header {
    Header {
        id,
        qr: 0,
        opcode: 0,
        aa: 0,
        tc: 0,
        rd: 0,
        ra: 0,
        z: 0,
        rcode: 0,
        qdcount: 1,
        ancount: 0,
        nscount: 0,
        arcount: 0,
    }
}

/// The wire bytes of the upstream query for `q` under transaction id
/// `id`: the query header, then the question with its name re-expanded to
/// pointer-free form.
pub open spec fn spec_query_bytes(id: u16, q: Question) -> Seq<u8> {
    crate::header::spec_header_bytes(spec_query_header(id)) + spec_encode_name(q.text()) + seq![
        0u8,
    ] + spec_u16_bytes(q.qtype) + spec_u16_bytes(q.qclass)
}

/// Build the datagram for one upstream round trip: a minimal one-question
/// query carrying a freshly drawn random transaction id and the question
/// in its uncompressed form.
pub fn build_query(question: &Question) -> (r: Vec<u8>)
    requires
        question.wf(),
    ensures
        exists|id: u16| r@ == spec_query_bytes(id, *question),
{
    let id = fresh_transaction_id();
    let header = Header { id, qdcount: 1, ..Header::default() };
    let mut questions: Vec<Question> = Vec::new();
    questions.push(question.uncompressed_question());
    let message = Message { header, questions, answers: Vec::new() };
    let r = message.to_bytes();
    proof {
        assert(message.questions@.drop_first() =~= Seq::<Question>::empty());
        assert(message.answers@ =~= Seq::<Answer>::empty());
        assert(message.header == spec_query_header(id));
        assert(message.questions@[0].spec_record_bytes() =~= spec_encode_name(question.text())
            + seq![0u8] + spec_u16_bytes(question.qtype) + spec_u16_bytes(question.qclass));
        assert(crate::message::spec_questions_bytes(message.questions@.drop_first()) =~= Seq::<
            u8,
        >::empty());
        assert(crate::message::spec_questions_bytes(message.questions@)
            =~= message.questions@[0].spec_record_bytes());
        assert(crate::message::spec_answers_bytes(message.answers@) =~= Seq::<u8>::empty());
        assert(r@ =~= spec_query_bytes(id, *question));
    }
    r
}

/// The state of one forwarding resolution: which questions still await
/// their upstream round trip, and the answers gathered so far.  The caller
/// drives it by sending each query `next_query` hands out and feeding the
/// one reply it awaits back through `absorb_reply`; the sequencing — one
/// round trip per question, in order, the whole batch failing on the first
/// bad reply with no partial result taken — lives here.
pub struct ForwardingRun {
    pub questions: Vec<Question>,
    pub next: usize,
    pub answers: Vec<Answer>,
}

impl ForwardingRun {
    /// The cursor stays within the batch and every question is fit to be
    /// re-encoded.
    pub open spec fn wf(self) -> bool {
        &&& self.next <= self.questions@.len()
        &&& forall|i: int| 0 <= i < self.questions@.len() ==> (#[trigger] self.questions@[i]).wf()
    }

    /// Begin forwarding a batch: no question asked yet, nothing gathered.
    pub fn start(questions: Vec<Question>) -> (r: ForwardingRun)
        requires
            forall|i: int| 0 <= i < questions@.len() ==> (#[trigger] questions@[i]).wf(),
        ensures
            r.questions@ == questions@,
            r.next == 0,
            r.answers@.len() == 0,
            r.wf(),
    {
        ForwardingRun { questions, next: 0, answers: Vec::new() }
    }

    /// Hand out the next upstream query: exactly one per question, in
    /// order, each under a fresh random transaction id; `None` once every
    /// question has been asked.
    pub fn next_query(&mut self) -> (r: Option<Vec<u8>>)
        requires
            old(self).wf(),
        ensures
            final(self).wf(),
            final(self).questions@ == old(self).questions@,
            final(self).answers@ == old(self).answers@,
            old(self).next < old(self).questions@.len() ==> {
                &&& r is Some
                &&& final(self).next == old(self).next + 1
                &&& exists|id: u16|
                    r->Some_0@ == spec_query_bytes(
                        id,
                        old(self).questions@[old(self).next as int],
                    )
            },
            old(self).next >= old(self).questions@.len() ==> r is None && final(self).next == old(
                self,
            ).next,
    {
        if self.next >= self.questions.len() {
            return None;
        }
        let bytes = build_query(&self.questions[self.next]);
        self.next = self.next + 1;
        Some(bytes)
    }

    /// Take in the one reply of the current round trip: its answers join
    /// the gathered list in order, or its decode failure fails the whole
    /// batch with nothing taken from it.
    pub fn absorb_reply(&mut self, reply: &[u8]) -> (r: Result<(), DecodeError>)
        ensures
            final(self).questions@ == old(self).questions@,
            final(self).next == old(self).next,
            match spec_parse_message(reply@) {
                Ok(m) => {
                    &&& r is Ok
                    &&& final(self).answers@.len() == old(self).answers@.len() + m.answers.len()
                    &&& forall|i: int|
                        0 <= i < old(self).answers@.len() ==> final(self).answers@[i] == old(
                            self,
                        ).answers@[i]
                    &&& forall|i: int|
                        0 <= i < m.answers.len() ==> answer_matches(
                            #[trigger] final(self).answers@[old(self).answers@.len() + i],
                            m.answers[i],
                        ) && final(self).answers@[old(self).answers@.len() + i].wf()
                },
                Err(e) => r == Err::<(), DecodeError>(e) && final(self).answers@ == old(
                    self,
                ).answers@,
            },
    {
        collect_answers(reply, &mut self.answers)
    }

    /// The gathered answers of a finished run.
    pub fn into_answers(self) -> (r: Vec<Answer>)
        ensures
            r@ == self.answers@,
    {
        self.answers
    }
}

/// Decode one upstream reply and append its answer records, in order, to
/// the answers gathered so far.  A reply that fails to decode leaves the
/// gathered set untouched and its error fails the whole batch.
pub fn collect_answers(reply: &[u8], acc: &mut Vec<Answer>) -> (r: Result<(), DecodeError>)
    ensures
        match spec_parse_message(reply@) {
            Ok(m) => {
                &&& r is Ok
                &&& final(acc)@.len() == old(acc)@.len() + m.answers.len()
                &&& forall|i: int| 0 <= i < old(acc)@.len() ==> final(acc)@[i] == old(acc)@[i]
                &&& forall|i: int|
                    0 <= i < m.answers.len() ==> answer_matches(
                        #[trigger] final(acc)@[old(acc)@.len() + i],
                        m.answers[i],
                    ) && final(acc)@[old(acc)@.len() + i].wf()
            },
            Err(e) => r == Err::<(), DecodeError>(e) && final(acc)@ == old(acc)@,
        },
{
    let message = match Message::from_bytes(reply) {
        Ok(m) => m,
        Err(e) => {
            return Err(e);
        },
    };
    let ghost acc0 = acc@;
    let ghost arrived = message.answers@;
    let mut rest = message.answers;
    while rest.len() > 0
        invariant
            acc0 == old(acc)@,
            acc@ + rest@ == acc0 + arrived,
            acc0.len() <= acc@.len(),
        decreases rest@.len(),
    {
        let a = rest.remove(0);
        acc.push(a);
        proof {
            assert(acc@ + rest@ =~= acc0 + arrived);
        }
    }
    proof {
        assert(acc@ =~= acc0 + arrived);
    }
    Ok(())
}

} // verus!
