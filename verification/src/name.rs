use crate::DecodeError;
use vstd::prelude::*;
use vstd::utf8::decode_utf8;
use vstd::utf8::valid_utf8;

verus! {

/// The byte that separates labels in the canonical text form of a name.
pub const DOT: u8 = 46;

/// Some byte of `t[lo..=hi]` is the label separator.
pub open spec fn has_dot(t: Seq<u8>, lo: int, hi: int) -> bool {
    exists|k: int| lo <= k <= hi && 0 <= k < t.len() && t[k] == DOT
}

/// Every 64-byte window of `t` contains a separator, so no dot-free run
/// (and hence no label of the text) is longer than 63 bytes.
pub open spec fn runs_short(t: Seq<u8>) -> bool {
    forall|i: int| 0 <= i && i + 63 < t.len() ==> #[trigger] has_dot(t, i, i + 63)
}

/// The label dictionary built while decoding one message: each entry maps
/// an absolute byte offset to the label text decoded at that offset, in
/// the order the offsets were consumed.
pub struct LabelDict {
    pub entries: Vec<LabelEntry>,
}

/// One dictionary entry: the text decoded at an absolute offset.  An
/// empty text marks the end of a name.
pub struct LabelEntry {
    pub offset: usize,
    pub text: Vec<u8>,
}

impl View for LabelDict {
    type V = Seq<(int, Seq<u8>)>;

    open spec fn view(&self) -> Seq<(int, Seq<u8>)> {
        self.entries@.map_values(|e: LabelEntry| (e.offset as int, e.text@))
    }
}

impl LabelDict {
    /// An empty dictionary, the state before any label has been decoded.
    pub fn new() -> (r: LabelDict)
        ensures
            r@ == Seq::<(int, Seq<u8>)>::empty(),
    {
        let r = LabelDict { entries: Vec::new() };
        proof {
            assert(r@ =~= Seq::<(int, Seq<u8>)>::empty());
        }
        r
    }
}

/// Dictionary offsets strictly increase and every stored text is valid
/// UTF-8 with short runs, as decoding only ever produces.
pub open spec fn dict_wf(d: Seq<(int, Seq<u8>)>) -> bool {
    &&& forall|i: int, j: int| 0 <= i < j < d.len() ==> d[i].0 < d[j].0
    &&& forall|i: int| 0 <= i < d.len() ==> valid_utf8(#[trigger] d[i].1) && runs_short(d[i].1)
}

/// Every entry of `d` lies at an offset below `pos`.
pub open spec fn dict_below(d: Seq<(int, Seq<u8>)>, pos: int) -> bool {
    forall|i: int| 0 <= i < d.len() ==> #[trigger] d[i].0 < pos
}

/// The canonical text the dictionary yields from offset `from`: walk the
/// entries in order, skip those before `from`, then join the texts with a
/// trailing separator each, stopping at the first empty entry.
pub open spec fn dict_text_from(d: Seq<(int, Seq<u8>)>, from: int) -> Seq<u8>
    decreases d.len(),
{
    if d.len() == 0 {
        Seq::empty()
    } else if d[0].0 < from {
        dict_text_from(d.drop_first(), from)
    } else if d[0].1.len() == 0 {
        Seq::empty()
    } else {
        d[0].1 + seq![DOT] + dict_text_from(d.drop_first(), from)
    }
}

/// What one name scan leaves behind: the grown dictionary, the offset one
/// past the name's consumed span, and whether a pointer ended the name.
pub ghost struct NameScan {
    pub dict: Seq<(int, Seq<u8>)>,
    pub end: int,
    pub ptr_end: bool,
}

/// Scan one wire-format name in `buf` starting at absolute offset `pos`,
/// growing dictionary `d` as the decoding algorithm prescribes.  A zero
/// byte ends the name; a byte with both top bits set starts a two-byte
/// pointer whose 14 low bits must reference a strictly earlier offset with
/// text already in the dictionary; any other byte below 64 is a plain
/// label length.  Bytes 64 to 191 are no valid length, and a label whose
/// bytes are not valid UTF-8 is rejected.
pub open spec fn spec_scan_name(buf: Seq<u8>, pos: int, d: Seq<(int, Seq<u8>)>) -> Result<
    NameScan,
    DecodeError,
>
    decreases buf.len() - pos,
{
    if pos < 0 || pos >= buf.len() {
        Err(DecodeError::TruncatedInput)
    } else if buf[pos] == 0 {
        Ok(
            NameScan {
                dict: d.push((pos, Seq::empty())),
                end: pos + 1,
                ptr_end: false,
            },
        )
    } else if buf[pos] >= 192 {
        if pos + 1 >= buf.len() {
            Err(DecodeError::TruncatedInput)
        } else {
            let target = (buf[pos] - 192) as int * 256 + buf[pos + 1] as int;
            if target >= pos || dict_text_from(d, target).len() == 0 {
                Err(DecodeError::MalformedName)
            } else {
                Ok(
                    NameScan {
                        dict: d.push((pos, dict_text_from(d, target).drop_last())).push(
                            ((pos + 2) as int, Seq::empty()),
                        ),
                        end: pos + 2,
                        ptr_end: true,
                    },
                )
            }
        }
    } else if buf[pos] < 64 {
        if pos + 1 + buf[pos] as int > buf.len() {
            Err(DecodeError::TruncatedInput)
        } else if !valid_utf8(buf.subrange(pos + 1, pos + 1 + buf[pos] as int)) {
            Err(DecodeError::MalformedName)
        } else {
            spec_scan_name(
                buf,
                pos + 1 + buf[pos] as int,
                d.push((pos, buf.subrange(pos + 1, pos + 1 + buf[pos] as int))),
            )
        }
    } else {
        Err(DecodeError::MalformedName)
    }
}

/// A decoded name: its canonical dotted text, the raw wire bytes of its
/// span (without the terminating zero for a plain ending, with both
/// pointer bytes for a pointer ending), and the absolute offset one past
/// the consumed span.
pub struct DecodedName {
    pub label: String,
    pub wire: Vec<u8>,
    pub end: usize,
}

/// Relies on `String::from_utf8`: it succeeds on valid UTF-8 input and
/// returns the string whose characters those bytes encode.
#[verifier::external_body]
fn utf8_bytes_to_string(b: &Vec<u8>) -> (r: String)
    requires
        valid_utf8(b@),
    ensures
        r@ == decode_utf8(b@),
{
    String::from_utf8(b.clone()).unwrap()
}

/// Relies on `str::from_utf8`: it returns `Ok` exactly on the byte
/// sequences that are valid UTF-8.
#[verifier::external_body]
fn check_utf8(s: &[u8]) -> (r: bool)
    ensures
        r == valid_utf8(s@),
{
    std::str::from_utf8(s).is_ok()
}

/// Join the dictionary texts at offsets at or past `from`, each followed
/// by a separator, up to the first end-of-name entry.
pub fn labels_from(dict: &LabelDict, from: usize) -> (r: Vec<u8>)
    ensures
        r@ == dict_text_from(dict@, from as int),
{
    let ghost d = dict@;
    let mut r: Vec<u8> = Vec::new();
    let mut i: usize = 0;
    proof {
        assert(d.skip(0) =~= d);
    }
    while i < dict.entries.len()
        invariant
            i <= dict.entries.len(),
            d == dict@,
            d.len() == dict.entries.len(),
            r@ + dict_text_from(d.skip(i as int), from as int) == dict_text_from(d, from as int),
        decreases dict.entries.len() - i,
    {
        proof {
            assert(d[i as int] == (dict.entries@[i as int].offset as int,
            dict.entries@[i as int].text@));
            assert(d.skip(i as int)[0] == d[i as int]);
            assert(d.skip(i as int).drop_first() =~= d.skip(i as int + 1));
        }
        let e = &dict.entries[i];
        if e.offset >= from {
            if e.text.len() == 0 {
                proof {
                    assert(dict_text_from(d.skip(i as int), from as int) =~= Seq::<u8>::empty());
                    assert(r@ =~= dict_text_from(d, from as int));
                }
                return r;
            }
            let ghost r_pre = r@;
            r.extend_from_slice(e.text.as_slice());
            r.push(DOT);
            proof {
                assert(r@ =~= r_pre + e.text@ + seq![DOT]);
                assert(r_pre + dict_text_from(d.skip(i as int), from as int) =~= r@
                    + dict_text_from(d.skip(i as int + 1), from as int));
            }
        }
        i += 1;
    }
    proof {
        assert(d.skip(d.len() as int) =~= Seq::<(int, Seq<u8>)>::empty());
        assert(r@ =~= dict_text_from(d, from as int));
    }
    r
}

/// Decode one compressed name from the message buffer `buf`, starting at
/// absolute offset `start`, growing the message's label dictionary.  The
/// result, on success, is exactly what `spec_scan_name` prescribes; on
/// failure its error is returned and the datagram is beyond use.
pub fn decode_name(buf: &[u8], start: usize, dict: &mut LabelDict) -> (r: Result<
    DecodedName,
    DecodeError,
>)
    requires
        dict_wf(old(dict)@),
        dict_below(old(dict)@, start as int),
    ensures
        dict_wf(final(dict)@),
        match spec_scan_name(buf@, start as int, old(dict)@) {
            Ok(sc) => {
                &&& r is Ok
                &&& final(dict)@ == sc.dict
                &&& dict_below(final(dict)@, sc.end + 1)
                &&& r->Ok_0.end == sc.end
                &&& start <= sc.end <= buf@.len()
                &&& r->Ok_0.wire@ == buf@.subrange(
                    start as int,
                    if sc.ptr_end {
                        sc.end
                    } else {
                        sc.end - 1
                    },
                )
                &&& r->Ok_0.label@ == decode_utf8(dict_text_from(sc.dict, start as int))
            },
            Err(e) => r == Err::<DecodedName, DecodeError>(e),
        },
{
    let ghost d0 = dict@;
    let mut pos = start;
    let mut ptr_end = false;
    loop
        invariant_except_break
            d0 == old(dict)@,
            start <= pos,
            dict_wf(dict@),
            dict_below(dict@, pos as int),
            !ptr_end,
            spec_scan_name(buf@, start as int, d0) == spec_scan_name(buf@, pos as int, dict@),
        ensures
            spec_scan_name(buf@, start as int, d0) is Ok,
            ({
                let sc = spec_scan_name(buf@, start as int, d0)->Ok_0;
                &&& dict@ == sc.dict
                &&& pos == sc.end
                &&& ptr_end == sc.ptr_end
                &&& dict_wf(dict@)
                &&& dict_below(dict@, sc.end + 1)
                &&& start < pos <= buf@.len()
            }),
        decreases buf@.len() - pos,
    {
        if pos >= buf.len() {
            return Err(DecodeError::TruncatedInput);
        }
        let b = buf[pos];
        if b == 0 {
            let ghost d_pre = dict@;
            dict.entries.push(LabelEntry { offset: pos, text: Vec::new() });
            proof {
                assert(dict@ =~= d_pre.push((pos as int, Seq::<u8>::empty())));
            }
            pos = pos + 1;
            break;
        } else if b >= 192 {
            if pos + 1 >= buf.len() {
                return Err(DecodeError::TruncatedInput);
            }
            let target = (b - 192) as usize * 256 + buf[pos + 1] as usize;
            if target >= pos {
                return Err(DecodeError::MalformedName);
            }
            let mut t = labels_from(dict, target);
            if t.len() == 0 {
                return Err(DecodeError::MalformedName);
            }
            proof {
                lemma_dtf_props(dict@, target as int);
            }
            t.pop();
            let ghost d_pre = dict@;
            proof {
                lemma_text_drop_last(dict_text_from(d_pre, target as int));
                assert(t@ =~= dict_text_from(d_pre, target as int).drop_last());
            }
            dict.entries.push(LabelEntry { offset: pos, text: t });
            dict.entries.push(LabelEntry { offset: pos + 2, text: Vec::new() });
            proof {
                assert(dict@ =~= d_pre.push(
                    (pos as int, dict_text_from(d_pre, target as int).drop_last()),
                ).push((pos as int + 2, Seq::<u8>::empty())));
            }
            pos = pos + 2;
            ptr_end = true;
            break;
        } else if b < 64 {
            if buf.len() - (pos + 1) < b as usize {
                return Err(DecodeError::TruncatedInput);
            }
            let lab_slice = vstd::slice::slice_subrange(buf, pos + 1, pos + 1 + b as usize);
            if !check_utf8(lab_slice) {
                return Err(DecodeError::MalformedName);
            }
            let lab = vstd::slice::slice_to_vec(lab_slice);
            let ghost d_pre = dict@;
            let ghost labg = lab@;
            dict.entries.push(LabelEntry { offset: pos, text: lab });
            proof {
                assert(dict@ =~= d_pre.push((pos as int, labg)));
                assert(runs_short(labg));
            }
            pos = pos + 1 + b as usize;
        } else {
            return Err(DecodeError::MalformedName);
        }
    }
    let ghost sc = spec_scan_name(buf@, start as int, d0)->Ok_0;
    let text = labels_from(dict, start);
    proof {
        lemma_dtf_props(dict@, start as int);
    }
    let label = utf8_bytes_to_string(&text);
    let wire_end = if ptr_end {
        pos
    } else {
        pos - 1
    };
    let wire = vstd::slice::slice_to_vec(vstd::slice::slice_subrange(buf, start, wire_end));
    Ok(DecodedName { label, wire, end: pos })
}

/// Entries below `from` contribute nothing to the text from `from`.
proof fn lemma_dtf_prepend_low(d: Seq<(int, Seq<u8>)>, e: Seq<(int, Seq<u8>)>, from: int)
    requires
        dict_below(d, from),
    ensures
        dict_text_from(d + e, from) == dict_text_from(e, from),
    decreases d.len(),
{
    if d.len() == 0 {
        assert(d + e =~= e);
    } else {
        assert((d + e)[0] == d[0]);
        assert((d + e).drop_first() =~= d.drop_first() + e);
        assert(dict_below(d.drop_first(), from));
        lemma_dtf_prepend_low(d.drop_first(), e, from);
    }
}

/// When every entry lies at or above both thresholds, the text does not
/// depend on which threshold is used.
proof fn lemma_dtf_all_high(e: Seq<(int, Seq<u8>)>, f1: int, f2: int)
    requires
        forall|i: int| 0 <= i < e.len() ==> #[trigger] e[i].0 >= f1 && e[i].0 >= f2,
    ensures
        dict_text_from(e, f1) == dict_text_from(e, f2),
    decreases e.len(),
{
    if e.len() > 0 {
        lemma_dtf_all_high(e.drop_first(), f1, f2);
    }
}

/// Joining two short-run texts with a separator keeps the runs short.
proof fn lemma_runs_short_join(a: Seq<u8>, b: Seq<u8>)
    requires
        runs_short(a),
        runs_short(b),
    ensures
        runs_short(a + seq![DOT] + b),
{
    let c = a + seq![DOT] + b;
    assert forall|i: int| 0 <= i && i + 63 < c.len() implies #[trigger] has_dot(c, i, i + 63) by {
        if i + 63 < a.len() {
            assert(has_dot(a, i, i + 63));
            let k = choose|k: int| i <= k <= i + 63 && 0 <= k < a.len() && a[k] == DOT;
            assert(c[k] == DOT);
        } else if i > a.len() {
            let j = i - a.len() - 1;
            assert(j + 63 < b.len());
            assert(has_dot(b, j, j + 63));
            let k = choose|k: int| j <= k <= j + 63 && 0 <= k < b.len() && b[k] == DOT;
            assert(c[a.len() + 1 + k] == b[k]);
        } else {
            assert(c[a.len() as int] == DOT);
        }
    }
}

/// The separator byte on its own is valid UTF-8.
proof fn lemma_dot_valid()
    ensures
        valid_utf8(seq![DOT]),
{
    vstd::utf8::encode_utf8_valid_utf8(seq!['.']);
    assert(vstd::utf8::encode_utf8(seq!['.']) =~= seq![DOT]) by {
        vstd::utf8::is_ascii_chars_encode_utf8(seq!['.']);
        assert(('.' as u8) == DOT);
    }
}

/// Dropping the trailing separator of a valid short-run text keeps it
/// valid UTF-8 with short runs.
proof fn lemma_text_drop_last(t: Seq<u8>)
    requires
        valid_utf8(t),
        runs_short(t),
        t.len() > 0,
        t.last() == DOT,
    ensures
        valid_utf8(t.drop_last()),
        runs_short(t.drop_last()),
{
    let n = t.len() as int;
    vstd::utf8::is_char_boundary_iff_not_is_continuation_byte(t, n - 1);
    vstd::utf8::valid_utf8_split(t, n - 1);
    assert(t.drop_last() =~= t.subrange(0, n - 1));
    let s = t.drop_last();
    assert forall|i: int| 0 <= i && i + 63 < s.len() implies #[trigger] has_dot(s, i, i + 63) by {
        assert(has_dot(t, i, i + 63));
        let k = choose|k: int| i <= k <= i + 63 && 0 <= k < t.len() && t[k] == DOT;
        assert(s[k] == DOT);
    }
}

/// Texts the dictionary yields are valid UTF-8 with short runs and, when
/// not empty, end with the separator.
pub proof fn lemma_dtf_props(d: Seq<(int, Seq<u8>)>, from: int)
    requires
        forall|i: int| 0 <= i < d.len() ==> valid_utf8(#[trigger] d[i].1) && runs_short(d[i].1),
    ensures
        valid_utf8(dict_text_from(d, from)),
        runs_short(dict_text_from(d, from)),
        dict_text_from(d, from).len() > 0 ==> dict_text_from(d, from).last() == DOT,
    decreases d.len(),
{
    if d.len() == 0 {
    } else if d[0].0 < from {
        lemma_dtf_props(d.drop_first(), from);
    } else if d[0].1.len() == 0 {
    } else {
        lemma_dtf_props(d.drop_first(), from);
        let rest = dict_text_from(d.drop_first(), from);
        lemma_runs_short_join(d[0].1, rest);
        lemma_dot_valid();
        vstd::utf8::valid_utf8_concat(d[0].1, seq![DOT]);
        vstd::utf8::valid_utf8_concat(d[0].1 + seq![DOT], rest);
        let t = d[0].1 + seq![DOT] + rest;
        if rest.len() == 0 {
            assert(t.last() == DOT);
        } else {
            assert(t.last() == rest.last());
        }
    }
}

/// The position of the first separator in `t`, or `t.len()` if none.
pub open spec fn first_dot(t: Seq<u8>) -> int
    decreases t.len(),
{
    if t.len() == 0 {
        0
    } else if t[0] == DOT {
        0
    } else {
        1 + first_dot(t.drop_first())
    }
}

/// `first_dot` points at the first separator: nothing before it is one,
/// and it is one unless the text has none at all.
pub proof fn lemma_first_dot(t: Seq<u8>)
    ensures
        0 <= first_dot(t) <= t.len(),
        forall|i: int| 0 <= i < first_dot(t) ==> t[i] != DOT,
        first_dot(t) < t.len() ==> t[first_dot(t)] == DOT,
    decreases t.len(),
{
    if t.len() == 0 || t[0] == DOT {
    } else {
        lemma_first_dot(t.drop_first());
        assert forall|i: int| 0 <= i < first_dot(t) implies t[i] != DOT by {
            if i > 0 {
                assert(t.drop_first()[i - 1] != DOT);
            }
        }
    }
}

/// A position before which no separator stands, and which holds one or is
/// the end, is the first separator position.
proof fn lemma_first_dot_is(t: Seq<u8>, k: int)
    requires
        0 <= k <= t.len(),
        forall|i: int| 0 <= i < k ==> t[i] != DOT,
        k == t.len() || t[k] == DOT,
    ensures
        first_dot(t) == k,
    decreases t.len(),
{
    if t.len() == 0 {
    } else if t[0] == DOT {
        assert(k == 0);
    } else {
        assert(k >= 1);
        lemma_first_dot_is(t.drop_first(), k - 1);
    }
}

/// The pointer-free wire form of a canonical text: each dot-separated
/// segment as a length byte followed by its bytes, empty segments
/// dropped, without the terminating zero byte.
pub open spec fn spec_encode_name(t: Seq<u8>) -> Seq<u8>
    decreases t.len(),
{
    if t.len() == 0 {
        Seq::empty()
    } else if t[0] == DOT {
        spec_encode_name(t.drop_first())
    } else {
        let k = first_dot(t);
        if 0 <= k && k < t.len() {
            seq![(k as u8)] + t.subrange(0, k) + spec_encode_name(t.subrange(k + 1, t.len() as int))
        } else {
            seq![(t.len() as u8)] + t
        }
    }
}

/// Canonical dotted name text: a possibly empty run of labels, each 1 to
/// 63 bytes of valid UTF-8 free of separators, each followed by one
/// separator.
pub open spec fn is_canonical_text(t: Seq<u8>) -> bool
    decreases t.len(),
{
    if t.len() == 0 {
        true
    } else {
        let k = first_dot(t);
        if 1 <= k && k <= 63 && k < t.len() {
            valid_utf8(t.subrange(0, k)) && is_canonical_text(t.subrange(k + 1, t.len() as int))
        } else {
            false
        }
    }
}

/// Encode short-run text into its pointer-free wire form.
pub fn encode_text_bytes(t: &[u8]) -> (r: Vec<u8>)
    requires
        runs_short(t@),
    ensures
        r@ == spec_encode_name(t@),
{
    let ghost whole = t@;
    let mut r: Vec<u8> = Vec::new();
    let mut i: usize = 0;
    proof {
        assert(whole.skip(0) =~= whole);
    }
    while i < t.len()
        invariant
            i <= t@.len(),
            whole == t@,
            runs_short(whole),
            r@ + spec_encode_name(whole.skip(i as int)) == spec_encode_name(whole),
        decreases t@.len() - i,
    {
        if t[i] == DOT {
            proof {
                assert(whole.skip(i as int)[0] == DOT);
                assert(whole.skip(i as int).drop_first() =~= whole.skip(i as int + 1));
            }
            i = i + 1;
        } else {
            let mut j = i + 1;
            while j < t.len() && t[j] != DOT
                invariant
                    i < j <= t@.len(),
                    whole == t@,
                    i < t@.len(),
                    forall|m: int| i <= m < j ==> whole[m] != DOT,
                decreases t@.len() - j,
            {
                j = j + 1;
            }
            proof {
                if j - i > 63 {
                    assert(has_dot(whole, i as int, i as int + 63));
                    let m = choose|m: int|
                        i <= m <= i + 63 && 0 <= m < whole.len() && whole[m] == DOT;
                    assert(false);
                }
                lemma_first_dot_is(
                    whole.skip(i as int),
                    j - i,
                );
            }
            let ghost r_pre = r@;
            r.push((j - i) as u8);
            r.extend_from_slice(vstd::slice::slice_subrange(t, i, j));
            proof {
                let s = whole.skip(i as int);
                assert(whole.subrange(i as int, j as int) =~= s.subrange(0, j - i));
                if j < whole.len() {
                    assert(s.subrange(j - i + 1, s.len() as int) =~= whole.skip(j as int + 1));
                    assert(r@ =~= r_pre + (seq![((j - i) as u8)] + s.subrange(0, j - i)));
                    assert(r@ + spec_encode_name(whole.skip(j as int + 1)) =~= r_pre
                        + spec_encode_name(s));
                    assert(whole.skip(j as int)[0] == DOT);
                    assert(whole.skip(j as int).drop_first() =~= whole.skip(j as int + 1));
                } else {
                    assert(s.subrange(0, j - i) =~= s);
                    assert(first_dot(s) == s.len());
                    assert(r@ =~= r_pre + (seq![((j - i) as u8)] + s));
                    assert(whole.skip(j as int) =~= Seq::<u8>::empty());
                }
            }
            i = j;
        }
    }
    proof {
        assert(whole.skip(i as int) =~= Seq::<u8>::empty());
        assert(r@ =~= spec_encode_name(whole));
    }
    r
}

/// Nonempty canonical text is at least a label and its separator long and
/// ends with the separator.
proof fn lemma_canonical_last_dot(t: Seq<u8>)
    requires
        is_canonical_text(t),
        t.len() > 0,
    ensures
        t.len() >= 2,
        t.last() == DOT,
    decreases t.len(),
{
    let k = first_dot(t);
    lemma_first_dot(t);
    let rest = t.subrange(k + 1, t.len() as int);
    if rest.len() > 0 {
        lemma_canonical_last_dot(rest);
        assert(t.last() == rest.last());
    } else {
        assert(t.last() == t[k]);
    }
}

/// Canonical text is valid UTF-8 with short runs.
pub proof fn lemma_canonical_text_wf(t: Seq<u8>)
    requires
        is_canonical_text(t),
    ensures
        valid_utf8(t),
        runs_short(t),
    decreases t.len(),
{
    if t.len() == 0 {
    } else {
        let k = first_dot(t);
        lemma_first_dot(t);
        let seg = t.subrange(0, k);
        let rest = t.subrange(k + 1, t.len() as int);
        lemma_canonical_text_wf(rest);
        lemma_runs_short_join(seg, rest);
        assert(t =~= seg + seq![DOT] + rest);
        lemma_dot_valid();
        vstd::utf8::valid_utf8_concat(seg, seq![DOT]);
        vstd::utf8::valid_utf8_concat(seg + seq![DOT], rest);
    }
}

/// Scanning the pointer-free encoding of a canonical text, followed by
/// its terminating zero byte, succeeds, consumes exactly that span, and
/// yields the text back.
pub proof fn lemma_scan_encoded(buf: Seq<u8>, start: int, d: Seq<(int, Seq<u8>)>, t: Seq<u8>)
    requires
        is_canonical_text(t),
        0 <= start,
        start + spec_encode_name(t).len() + 1 <= buf.len(),
        buf.subrange(start, start + spec_encode_name(t).len() + 1) == spec_encode_name(t) + seq![
            0u8,
        ],
        dict_below(d, start),
    ensures
        spec_scan_name(buf, start, d) is Ok,
        ({
            let sc = spec_scan_name(buf, start, d)->Ok_0;
            &&& sc.end == start + spec_encode_name(t).len() + 1
            &&& !sc.ptr_end
            &&& sc.dict.len() > d.len()
            &&& sc.dict.subrange(0, d.len() as int) == d
            &&& forall|i: int| d.len() <= i < sc.dict.len() ==> #[trigger] sc.dict[i].0 >= start
            &&& dict_text_from(sc.dict, start) == t
        }),
    decreases t.len(),
{
    let enc = spec_encode_name(t);
    let view = buf.subrange(start, start + enc.len() + 1);
    if t.len() == 0 {
        assert(buf[start] == view[0]);
        assert(buf[start] == 0);
        let sc = spec_scan_name(buf, start, d)->Ok_0;
        let e = seq![(start, Seq::<u8>::empty())];
        assert(sc.dict =~= d + e);
        lemma_dtf_prepend_low(d, e, start);
        assert(dict_text_from(e, start) =~= Seq::<u8>::empty());
        assert(sc.dict.subrange(0, d.len() as int) =~= d);
    } else {
        let k = first_dot(t);
        lemma_first_dot(t);
        let seg = t.subrange(0, k);
        let rest = t.subrange(k + 1, t.len() as int);
        let enc_rest = spec_encode_name(rest);
        assert(enc == seq![(k as u8)] + seg + enc_rest);
        assert(enc.len() == 1 + k + enc_rest.len());
        assert(buf[start] == view[0]);
        assert(view[0] == k as u8);
        assert(1 <= k <= 63);
        assert(buf[start] == k as u8 && 1 <= buf[start] < 64);
        assert(buf.subrange(start + 1, start + 1 + k) =~= seg) by {
            assert forall|i: int| 0 <= i < k implies buf.subrange(start + 1, start + 1 + k)[i]
                == seg[i] by {
                assert(buf[start + 1 + i] == view[1 + i]);
                assert(view[1 + i] == seg[i]);
            }
        }
        lemma_canonical_text_wf(t);
        assert(valid_utf8(seg));
        let start2 = start + 1 + k;
        let d2 = d.push((start, seg));
        assert(spec_scan_name(buf, start, d) == spec_scan_name(buf, start2, d2));
        assert(buf.subrange(start2, start2 + enc_rest.len() + 1) =~= enc_rest + seq![0u8]) by {
            assert forall|i: int| 0 <= i < enc_rest.len() + 1 implies buf.subrange(
                start2,
                start2 + enc_rest.len() + 1,
            )[i] == (enc_rest + seq![0u8])[i] by {
                assert(buf[start2 + i] == view[1 + k + i]);
                assert(view[1 + k + i] == (enc + seq![0u8])[1 + k + i]);
            }
        }
        assert(dict_below(d2, start2));
        lemma_scan_encoded(buf, start2, d2, rest);
        let sc = spec_scan_name(buf, start2, d2)->Ok_0;
        assert(sc.end == start2 + enc_rest.len() + 1 == start + enc.len() + 1);
        // the dictionary splits as d, the segment entry, then the entries
        // the tail scan added
        let new2 = sc.dict.skip(d2.len() as int);
        assert(sc.dict =~= d2 + new2);
        assert(sc.dict[d.len() as int] == (start, seg)) by {
            assert(sc.dict.subrange(0, d2.len() as int)[d.len() as int] == d2[d.len() as int]);
        }
        let e = sc.dict.skip(d.len() as int);
        assert(sc.dict =~= d + e);
        assert(e[0] == (start, seg));
        assert(e.drop_first() =~= new2);
        lemma_dtf_prepend_low(d, e, start);
        assert(dict_text_from(sc.dict, start) == dict_text_from(e, start));
        assert(dict_text_from(e, start) == seg + seq![DOT] + dict_text_from(new2, start));
        assert(dict_below(d2, start2));
        lemma_dtf_prepend_low(d2, new2, start2);
        assert(dict_text_from(sc.dict, start2) == dict_text_from(new2, start2));
        assert(forall|i: int|
            0 <= i < new2.len() ==> #[trigger] new2[i].0 >= start2 && new2[i].0 >= start) by {
            assert(forall|i: int|
                0 <= i < new2.len() ==> new2[i] == sc.dict[d2.len() + i] && d2.len() + i >= d2.len(
                ));
        }
        lemma_dtf_all_high(new2, start, start2);
        assert(dict_text_from(sc.dict, start) == seg + seq![DOT] + rest);
        assert(t =~= seg + seq![DOT] + rest);
        assert(sc.dict.subrange(0, d.len() as int) =~= d) by {
            assert forall|i: int| 0 <= i < d.len() implies sc.dict.subrange(0, d.len() as int)[i]
                == d[i] by {
                assert(sc.dict.subrange(0, d2.len() as int)[i] == d2[i]);
            }
        }
        assert forall|i: int| d.len() <= i < sc.dict.len() implies #[trigger] sc.dict[i].0
            >= start by {
            if i == d.len() {
            } else if i < d2.len() {
                assert(false);
            } else {
                assert(sc.dict[i] == new2[i - d2.len()]);
            }
        }
    }
}

/// Name round trip: the pointer-free encoding of any canonical dotted
/// text, decoded from a fresh buffer with an empty dictionary, gives the
/// text back and consumes the whole buffer.
pub proof fn lemma_name_round_trip(t: Seq<u8>)
    requires
        is_canonical_text(t),
    ensures
        ({
            let buf = spec_encode_name(t) + seq![0u8];
            let r = spec_scan_name(buf, 0, Seq::<(int, Seq<u8>)>::empty());
            &&& r is Ok
            &&& !r->Ok_0.ptr_end
            &&& r->Ok_0.end == buf.len()
            &&& dict_text_from(r->Ok_0.dict, 0) == t
        }),
{
    let buf = spec_encode_name(t) + seq![0u8];
    assert(buf.subrange(0, buf.len() as int) =~= buf);
    lemma_scan_encoded(buf, 0, Seq::empty(), t);
}

/// Compression transparency: a name that ends in a pointer to canonical
/// text `t` already in the dictionary decodes to the same canonical text
/// as a name carrying the pointed-to label sequence inlined in its place.
pub proof fn lemma_pointer_transparency(
    pbuf: Seq<u8>,
    ibuf: Seq<u8>,
    start: int,
    d: Seq<(int, Seq<u8>)>,
    tg: int,
    t: Seq<u8>,
)
    requires
        is_canonical_text(t),
        t.len() > 0,
        dict_below(d, start),
        dict_text_from(d, tg) == t,
        0 <= tg < start,
        tg < 16384,
        start + 2 <= pbuf.len(),
        pbuf[start] == (192 + tg / 256) as u8,
        pbuf[start + 1] == (tg % 256) as u8,
        start + spec_encode_name(t).len() + 1 <= ibuf.len(),
        ibuf.subrange(start, start + spec_encode_name(t).len() + 1) == spec_encode_name(t) + seq![
            0u8,
        ],
    ensures
        spec_scan_name(pbuf, start, d) is Ok,
        spec_scan_name(ibuf, start, d) is Ok,
        dict_text_from(spec_scan_name(pbuf, start, d)->Ok_0.dict, start) == t,
        dict_text_from(spec_scan_name(ibuf, start, d)->Ok_0.dict, start) == t,
{
    lemma_scan_encoded(ibuf, start, d, t);
    lemma_canonical_last_dot(t);
    let b = pbuf[start];
    assert(0 <= tg / 256 < 64 && (192 + tg / 256) >= 192);
    assert(b >= 192);
    assert((b - 192) as int * 256 + pbuf[start + 1] as int == tg) by {
        assert((192 + tg / 256) as u8 as int == 192 + tg / 256);
        assert((tg % 256) as u8 as int == tg % 256);
        vstd::arithmetic::div_mod::lemma_fundamental_div_mod(tg, 256);
    }
    let sc = spec_scan_name(pbuf, start, d)->Ok_0;
    let e = seq![(start, t.drop_last()), ((start + 2) as int, Seq::<u8>::empty())];
    assert(sc.dict =~= d + e);
    lemma_dtf_prepend_low(d, e, start);
    assert(e.drop_first() =~= seq![((start + 2) as int, Seq::<u8>::empty())]);
    assert(dict_text_from(e.drop_first(), start) =~= Seq::<u8>::empty());
    assert(t.drop_last().len() > 0);
    assert(dict_text_from(e, start) == t.drop_last() + seq![DOT] + Seq::<u8>::empty());
    assert(t.drop_last() + seq![DOT] + Seq::<u8>::empty() =~= t);
}

} // verus!
