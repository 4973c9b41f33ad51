use crate::name::{
    decode_name, dict_below, dict_text_from, dict_wf, encode_text_bytes, lemma_dtf_props,
    runs_short, spec_encode_name, spec_scan_name, LabelDict,
};
use crate::wire::{push_be16, read_be16, spec_be16, spec_u16_bytes};
use crate::DecodeError;
use vstd::prelude::*;
use vstd::utf8::decode_utf8;
use vstd::utf8::encode_utf8;

verus! {

/// One question record: the raw wire bytes of its name (which may still
/// carry compression pointers when captured from a request), the canonical
/// dotted text of the name, and the two fixed 16-bit trailer fields.
#[derive(Clone, Debug)]
pub struct Question {
    pub qname: Vec<u8>,
    pub qtype: u16,
    pub qclass: u16,
    pub label: String,
}

/// What one decoded question denotes: canonical name text (as UTF-8
/// bytes), raw wire span of the name, and the trailer fields.
pub ghost struct QuestionModel {
    pub text: Seq<u8>,
    pub wire: Seq<u8>,
    pub qtype: u16,
    pub qclass: u16,
}

/// What scanning a run of questions leaves behind.
pub ghost struct QuestionsScan {
    pub qs: Seq<QuestionModel>,
    pub end: int,
    pub dict: Seq<(int, Seq<u8>)>,
}

/// Scan one question at absolute offset `pos`: a name, then the two
/// big-endian trailer fields.
pub open spec fn spec_scan_question(buf: Seq<u8>, pos: int, d: Seq<(int, Seq<u8>)>) -> Result<
    (QuestionModel, int, Seq<(int, Seq<u8>)>),
    DecodeError,
> {
    match spec_scan_name(buf, pos, d) {
        Err(e) => Err(e),
        Ok(sc) => {
            if sc.end + 4 > buf.len() {
                Err(DecodeError::TruncatedInput)
            } else {
                Ok(
                    (
                        QuestionModel {
                            text: dict_text_from(sc.dict, pos),
                            wire: buf.subrange(
                                pos,
                                if sc.ptr_end {
                                    sc.end
                                } else {
                                    sc.end - 1
                                },
                            ),
                            qtype: spec_be16(buf, sc.end),
                            qclass: spec_be16(buf, sc.end + 2),
                        },
                        sc.end + 4,
                        sc.dict,
                    ),
                )
            }
        },
    }
}

/// Scan `n` questions in order from absolute offset `pos`, threading the
/// label dictionary through.
pub open spec fn spec_scan_questions(
    buf: Seq<u8>,
    pos: int,
    d: Seq<(int, Seq<u8>)>,
    n: int,
) -> Result<QuestionsScan, DecodeError>
    decreases n,
{
    if n <= 0 {
        Ok(QuestionsScan { qs: Seq::empty(), end: pos, dict: d })
    } else {
        match spec_scan_question(buf, pos, d) {
            Err(e) => Err(e),
            Ok((q, end, d2)) => match spec_scan_questions(buf, end, d2, n - 1) {
                Err(e) => Err(e),
                Ok(many) => Ok(
                    QuestionsScan { qs: seq![q] + many.qs, end: many.end, dict: many.dict },
                ),
            },
        }
    }
}

/// A successful scan of `n` questions yields one model per record.
pub proof fn lemma_scan_questions_len(buf: Seq<u8>, pos: int, d: Seq<(int, Seq<u8>)>, n: int)
    requires
        n >= 0,
        spec_scan_questions(buf, pos, d, n) is Ok,
    ensures
        spec_scan_questions(buf, pos, d, n)->Ok_0.qs.len() == n,
    decreases n,
{
    if n > 0 {
        let (q, end, d2) = spec_scan_question(buf, pos, d)->Ok_0;
        lemma_scan_questions_len(buf, end, d2, n - 1);
    }
}

/// An executable question carries exactly what the model prescribes.
pub open spec fn question_matches(q: Question, m: QuestionModel) -> bool {
    &&& q.qname@ == m.wire
    &&& q.label@ == decode_utf8(m.text)
    &&& q.qtype == m.qtype
    &&& q.qclass == m.qclass
}

impl Question {
    /// The bytes the label text spells.
    pub open spec fn text(self) -> Seq<u8> {
        encode_utf8(self.label@)
    }

    /// None of the label's dot-separated segments is longer than a wire
    /// label may be.
    pub open spec fn wf(self) -> bool {
        runs_short(self.text())
    }

    /// The wire bytes this question contributes to an encoded message:
    /// its name bytes, the terminating zero, then the trailer fields.
    pub open spec fn spec_record_bytes(self) -> Seq<u8> {
        self.qname@ + seq![0u8] + spec_u16_bytes(self.qtype) + spec_u16_bytes(self.qclass)
    }

    /// Decode `count` questions from the message buffer starting at the
    /// absolute cursor `start`, growing the message's label dictionary,
    /// and return them with the cursor one past the section.
    pub fn from_bytes(buf: &[u8], count: u16, start: usize, dict: &mut LabelDict) -> (r: Result<
        (Vec<Question>, usize),
        DecodeError,
    >)
        requires
            dict_wf(old(dict)@),
            dict_below(old(dict)@, start as int),
        ensures
            dict_wf(final(dict)@),
            match spec_scan_questions(buf@, start as int, old(dict)@, count as int) {
                Ok(m) => {
                    &&& r is Ok
                    &&& r->Ok_0.0@.len() == m.qs.len()
                    &&& forall|j: int|
                        0 <= j < m.qs.len() ==> question_matches(#[trigger] r->Ok_0.0@[j], m.qs[j])
                            && r->Ok_0.0@[j].wf()
                    &&& r->Ok_0.1 == m.end
                    &&& final(dict)@ == m.dict
                    &&& dict_below(final(dict)@, m.end)
                    &&& start as int <= m.end
                },
                Err(e) => r == Err::<(Vec<Question>, usize), DecodeError>(e),
            },
    {
        let ghost d0 = dict@;
        let mut qs: Vec<Question> = Vec::new();
        let ghost mut models: Seq<QuestionModel> = Seq::empty();
        let mut pos = start;
        let mut i: u16 = 0;
        while i < count
            invariant
                d0 == old(dict)@,
                i <= count,
                dict_wf(dict@),
                dict_below(dict@, pos as int),
                start <= pos,
                qs@.len() == models.len() == i as int,
                forall|j: int|
                    0 <= j < models.len() ==> question_matches(#[trigger] qs@[j], models[j])
                        && qs@[j].wf(),
                match spec_scan_questions(buf@, start as int, d0, count as int) {
                    Ok(m) => {
                        &&& spec_scan_questions(buf@, pos as int, dict@, count as int - i) is Ok
                        &&& ({
                            let m2 = spec_scan_questions(
                                buf@,
                                pos as int,
                                dict@,
                                count as int - i,
                            )->Ok_0;
                            m.qs == models + m2.qs && m.end == m2.end && m.dict == m2.dict
                        })
                    },
                    Err(e) => spec_scan_questions(buf@, pos as int, dict@, count as int - i)
                        == Err::<QuestionsScan, DecodeError>(e),
                },
            decreases count - i,
        {
            let ghost d_pre = dict@;
            let dn = match decode_name(buf, pos, dict) {
                Ok(dn) => dn,
                Err(e) => {
                    return Err(e);
                },
            };
            let ghost sc = spec_scan_name(buf@, pos as int, d_pre)->Ok_0;
            if buf.len() - dn.end < 4 {
                return Err(DecodeError::TruncatedInput);
            }
            let qtype = read_be16(buf, dn.end);
            let qclass = read_be16(buf, dn.end + 2);
            let ghost one = spec_scan_question(buf@, pos as int, d_pre)->Ok_0;
            proof {
                models = models.push(one.0);
                lemma_dtf_props(sc.dict, pos as int);
                vstd::utf8::decode_utf8_encode_utf8(one.0.text);
            }
            let q = Question { qname: dn.wire, qtype, qclass, label: dn.label };
            proof {
                assert(q.text() =~= one.0.text);
                assert(question_matches(q, one.0) && q.wf());
            }
            qs.push(q);
            pos = dn.end + 4;
            i = i + 1;
            proof {
                match spec_scan_questions(buf@, start as int, d0, count as int) {
                    Ok(m) => {
                        let m2 = spec_scan_questions(
                            buf@,
                            pos as int,
                            dict@,
                            count as int - i,
                        )->Ok_0;
                        assert(m.qs =~= models + m2.qs);
                    },
                    Err(e) => {},
                }
            }
        }
        proof {
            if spec_scan_questions(buf@, start as int, d0, count as int) is Ok {
                let m = spec_scan_questions(buf@, start as int, d0, count as int)->Ok_0;
                assert(m.qs =~= models);
            }
        }
        Ok((qs, pos))
    }

    /// Re-expand this question's name from its canonical text into a
    /// pointer-free wire form, for use in a freshly laid-out packet where
    /// the original compression offsets are meaningless.
    pub fn uncompressed_question(&self) -> (r: Question)
        requires
            self.wf(),
        ensures
            r.qname@ == spec_encode_name(self.text()),
            r.label@ == self.label@,
            r.qtype == self.qtype,
            r.qclass == self.qclass,
            r.wf(),
    {
        let bytes: &[u8] = self.label.as_str().as_bytes();
        proof {
            assert(bytes@ == self.text());
        }
        let qname = encode_text_bytes(bytes);
        Question { qname, qtype: self.qtype, qclass: self.qclass, label: self.label.clone() }
    }

    /// Emit this question's wire bytes for a new packet.
    pub fn to_bytes(&self) -> (r: Vec<u8>)
        ensures
            r@ == self.spec_record_bytes(),
    {
        let mut r: Vec<u8> = Vec::new();
        r.extend_from_slice(self.qname.as_slice());
        r.push(0);
        push_be16(&mut r, self.qtype);
        push_be16(&mut r, self.qclass);
        proof {
            assert(r@ =~= self.spec_record_bytes());
        }
        r
    }
}

} // verus!
