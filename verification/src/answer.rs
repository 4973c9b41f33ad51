use crate::name::{
    decode_name, dict_below, dict_text_from, dict_wf, lemma_dtf_props, runs_short,
    spec_encode_name, spec_scan_name, LabelDict,
};
use crate::question::Question;
use crate::wire::{push_be16, push_be32, read_be16, read_be32, spec_be16, spec_be32,
    spec_u16_bytes, spec_u32_bytes};
use crate::DecodeError;
use vstd::prelude::*;
use vstd::utf8::decode_utf8;
use vstd::utf8::encode_utf8;

verus! {

/// Time-to-live given to locally synthesized answers.
pub const DEFAULT_ANSWER_TTL: u32 = 0;

/// One answer record: the name (raw wire bytes and canonical text), the
/// fixed trailer fields, and the opaque RDATA payload.
#[derive(Clone, Debug)]
pub struct Answer {
    pub name: Vec<u8>,
    pub atype: u16,
    pub class: u16,
    pub ttl: u32,
    pub rdlength: u16,
    pub rdata: Vec<u8>,
    pub label: String,
}

/// What one decoded answer denotes.
pub ghost struct AnswerModel {
    pub text: Seq<u8>,
    pub wire: Seq<u8>,
    pub atype: u16,
    pub class: u16,
    pub ttl: u32,
    pub rdlength: u16,
    pub rdata: Seq<u8>,
}

/// What scanning a run of answers leaves behind.
pub ghost struct AnswersScan {
    pub answers: Seq<AnswerModel>,
    pub end: int,
    pub dict: Seq<(int, Seq<u8>)>,
}

/// Scan one answer at absolute offset `pos`: a name, the four fixed
/// trailer fields, then `rdlength` bytes of payload.
pub open spec fn spec_scan_answer(buf: Seq<u8>, pos: int, d: Seq<(int, Seq<u8>)>) -> Result<
    (AnswerModel, int, Seq<(int, Seq<u8>)>),
    DecodeError,
> {
    match spec_scan_name(buf, pos, d) {
        Err(e) => Err(e),
        Ok(sc) => {
            if sc.end + 10 > buf.len() {
                Err(DecodeError::TruncatedInput)
            } else {
                let rdlength = spec_be16(buf, sc.end + 8);
                if sc.end + 10 + rdlength > buf.len() {
                    Err(DecodeError::TruncatedInput)
                } else {
                    Ok(
                        (
                            AnswerModel {
                                text: dict_text_from(sc.dict, pos),
                                wire: buf.subrange(
                                    pos,
                                    if sc.ptr_end {
                                        sc.end
                                    } else {
                                        sc.end - 1
                                    },
                                ),
                                atype: spec_be16(buf, sc.end),
                                class: spec_be16(buf, sc.end + 2),
                                ttl: spec_be32(buf, sc.end + 4),
                                rdlength,
                                rdata: buf.subrange(sc.end + 10, sc.end + 10 + rdlength),
                            },
                            sc.end + 10 + rdlength,
                            sc.dict,
                        ),
                    )
                }
            }
        },
    }
}

/// Scan `n` answers in order from absolute offset `pos`, threading the
/// label dictionary through.
pub open spec fn spec_scan_answers(
    buf: Seq<u8>,
    pos: int,
    d: Seq<(int, Seq<u8>)>,
    n: int,
) -> Result<AnswersScan, DecodeError>
    decreases n,
{
    if n <= 0 {
        Ok(AnswersScan { answers: Seq::empty(), end: pos, dict: d })
    } else {
        match spec_scan_answer(buf, pos, d) {
            Err(e) => Err(e),
            Ok((a, end, d2)) => match spec_scan_answers(buf, end, d2, n - 1) {
                Err(e) => Err(e),
                Ok(many) => Ok(
                    AnswersScan {
                        answers: seq![a] + many.answers,
                        end: many.end,
                        dict: many.dict,
                    },
                ),
            },
        }
    }
}

/// A successful scan of `n` answers yields one model per record.
pub proof fn lemma_scan_answers_len(buf: Seq<u8>, pos: int, d: Seq<(int, Seq<u8>)>, n: int)
    requires
        n >= 0,
        spec_scan_answers(buf, pos, d, n) is Ok,
    ensures
        spec_scan_answers(buf, pos, d, n)->Ok_0.answers.len() == n,
    decreases n,
{
    if n > 0 {
        let (a, end, d2) = spec_scan_answer(buf, pos, d)->Ok_0;
        lemma_scan_answers_len(buf, end, d2, n - 1);
    }
}

/// An executable answer carries exactly what the model prescribes.
pub open spec fn answer_matches(a: Answer, m: AnswerModel) -> bool {
    &&& a.name@ == m.wire
    &&& a.label@ == decode_utf8(m.text)
    &&& a.atype == m.atype
    &&& a.class == m.class
    &&& a.ttl == m.ttl
    &&& a.rdlength == m.rdlength
    &&& a.rdata@ == m.rdata
}

impl Answer {
    /// The bytes the label text spells.
    pub open spec fn text(self) -> Seq<u8> {
        encode_utf8(self.label@)
    }

    /// The label's dot-separated segments fit wire labels, and the payload
    /// length field agrees with the payload actually held.
    pub open spec fn wf(self) -> bool {
        &&& runs_short(self.text())
        &&& self.rdlength == self.rdata@.len()
    }

    /// The wire bytes this answer contributes to an encoded message.
    pub open spec fn spec_record_bytes(self) -> Seq<u8> {
        self.name@ + seq![0u8] + spec_u16_bytes(self.atype) + spec_u16_bytes(self.class)
            + spec_u32_bytes(self.ttl) + spec_u16_bytes(self.rdlength) + self.rdata@
    }

    /// Synthesize the local answer for a question: the question's name in
    /// pointer-free form, address record type and class, a fixed
    /// time-to-live, and a fixed four-byte placeholder payload.
    pub fn for_question(question: &Question) -> (r: Answer)
        requires
            question.wf(),
        ensures
            r.name@ == spec_encode_name(question.text()),
            r.label@ == question.label@,
            r.atype == 1,
            r.class == 1,
            r.ttl == DEFAULT_ANSWER_TTL,
            r.rdlength == 4,
            r.rdata@ == seq![0u8, 0u8, 0u8, 0u8],
            r.wf(),
    {
        let un = question.uncompressed_question();
        let mut rdata: Vec<u8> = Vec::new();
        rdata.push(0);
        rdata.push(0);
        rdata.push(0);
        rdata.push(0);
        proof {
            assert(rdata@ =~= seq![0u8, 0u8, 0u8, 0u8]);
        }
        Answer {
            name: un.qname,
            atype: 1,
            class: 1,
            ttl: DEFAULT_ANSWER_TTL,
            rdlength: 4,
            rdata,
            label: un.label,
        }
    }

    /// Decode `count` answers from the message buffer starting at the
    /// absolute cursor `start`, growing the message's label dictionary,
    /// and return them with the cursor one past the section.
    pub fn from_bytes(buf: &[u8], count: u16, start: usize, dict: &mut LabelDict) -> (r: Result<
        (Vec<Answer>, usize),
        DecodeError,
    >)
        requires
            dict_wf(old(dict)@),
            dict_below(old(dict)@, start as int),
        ensures
            dict_wf(final(dict)@),
            match spec_scan_answers(buf@, start as int, old(dict)@, count as int) {
                Ok(m) => {
                    &&& r is Ok
                    &&& r->Ok_0.0@.len() == m.answers.len()
                    &&& forall|j: int|
                        0 <= j < m.answers.len() ==> answer_matches(
                            #[trigger] r->Ok_0.0@[j],
                            m.answers[j],
                        ) && r->Ok_0.0@[j].wf()
                    &&& r->Ok_0.1 == m.end
                    &&& final(dict)@ == m.dict
                    &&& dict_below(final(dict)@, m.end)
                    &&& start as int <= m.end
                },
                Err(e) => r == Err::<(Vec<Answer>, usize), DecodeError>(e),
            },
    {
        let ghost d0 = dict@;
        let mut answers: Vec<Answer> = Vec::new();
        let ghost mut models: Seq<AnswerModel> = Seq::empty();
        let mut pos = start;
        let mut i: u16 = 0;
        while i < count
            invariant
                d0 == old(dict)@,
                i <= count,
                dict_wf(dict@),
                dict_below(dict@, pos as int),
                start <= pos,
                answers@.len() == models.len() == i as int,
                forall|j: int|
                    0 <= j < models.len() ==> answer_matches(#[trigger] answers@[j], models[j])
                        && answers@[j].wf(),
                match spec_scan_answers(buf@, start as int, d0, count as int) {
                    Ok(m) => {
                        &&& spec_scan_answers(buf@, pos as int, dict@, count as int - i) is Ok
                        &&& ({
                            let m2 = spec_scan_answers(
                                buf@,
                                pos as int,
                                dict@,
                                count as int - i,
                            )->Ok_0;
                            m.answers == models + m2.answers && m.end == m2.end && m.dict
                                == m2.dict
                        })
                    },
                    Err(e) => spec_scan_answers(buf@, pos as int, dict@, count as int - i)
                        == Err::<AnswersScan, DecodeError>(e),
                },
            decreases count - i,
        {
            let ghost d_pre = dict@;
            let dn = match decode_name(buf, pos, dict) {
                Ok(dn) => dn,
                Err(e) => {
                    return Err(e);
                },
            };
            let ghost sc = spec_scan_name(buf@, pos as int, d_pre)->Ok_0;
            if buf.len() - dn.end < 10 {
                return Err(DecodeError::TruncatedInput);
            }
            let rdlength = read_be16(buf, dn.end + 8);
            if buf.len() - (dn.end + 10) < rdlength as usize {
                return Err(DecodeError::TruncatedInput);
            }
            let atype = read_be16(buf, dn.end);
            let class = read_be16(buf, dn.end + 2);
            let ttl = read_be32(buf, dn.end + 4);
            let rdata = vstd::slice::slice_to_vec(
                vstd::slice::slice_subrange(buf, dn.end + 10, dn.end + 10 + rdlength as usize),
            );
            let ghost one = spec_scan_answer(buf@, pos as int, d_pre)->Ok_0;
            proof {
                models = models.push(one.0);
                lemma_dtf_props(sc.dict, pos as int);
                vstd::utf8::decode_utf8_encode_utf8(one.0.text);
            }
            let a = Answer { name: dn.wire, atype, class, ttl, rdlength, rdata, label: dn.label };
            proof {
                assert(a.text() =~= one.0.text);
                assert(answer_matches(a, one.0) && a.wf());
            }
            answers.push(a);
            pos = dn.end + 10 + rdlength as usize;
            i = i + 1;
            proof {
                match spec_scan_answers(buf@, start as int, d0, count as int) {
                    Ok(m) => {
                        let m2 = spec_scan_answers(
                            buf@,
                            pos as int,
                            dict@,
                            count as int - i,
                        )->Ok_0;
                        assert(m.answers =~= models + m2.answers);
                    },
                    Err(e) => {},
                }
            }
        }
        proof {
            if spec_scan_answers(buf@, start as int, d0, count as int) is Ok {
                let m = spec_scan_answers(buf@, start as int, d0, count as int)->Ok_0;
                assert(m.answers =~= models);
            }
        }
        Ok((answers, pos))
    }

    /// Emit this answer's wire bytes for a new packet.
    pub fn to_bytes(&self) -> (r: Vec<u8>)
        ensures
            r@ == self.spec_record_bytes(),
    {
        let mut r: Vec<u8> = Vec::new();
        r.extend_from_slice(self.name.as_slice());
        r.push(0);
        push_be16(&mut r, self.atype);
        push_be16(&mut r, self.class);
        push_be32(&mut r, self.ttl);
        push_be16(&mut r, self.rdlength);
        r.extend_from_slice(self.rdata.as_slice());
        proof {
            assert(r@ =~= self.spec_record_bytes());
        }
        r
    }
}

impl Default for Answer {
    /// The empty answer: zero fields, no name, no payload.
    fn default() -> (r: Answer)
        ensures
            r.name@ == Seq::<u8>::empty(),
            r.atype == 0,
            r.class == 0,
            r.ttl == 0,
            r.rdlength == 0,
            r.rdata@ == Seq::<u8>::empty(),
            r.label@ == Seq::<char>::empty(),
            r.wf(),
    {
        Answer {
            name: Vec::new(),
            atype: 0,
            class: 0,
            ttl: 0,
            rdlength: 0,
            rdata: Vec::new(),
            label: String::new(),
        }
    }
}

} // verus!
