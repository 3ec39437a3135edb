//! `SString` ("sanitation string") converts streams of bytes into valid
//! UTF-8 strings while keeping every non-valid byte, and its position,
//! inside the value's state for forensic analysis, debugging and error
//! reporting.
//!
//! It is meant as a safer alternative to both a strict UTF-8 conversion
//! (which throws the evidence away when it fails) and an unchecked one
//! (which must never be fed attacker-controlled bytes): one valid string is
//! always recoverable, and all non-valid bytes stay inspectable, so that a
//! caller can detect covert channels, kill suspect connections, or log the
//! anomalous bytes.
//!
//! A value accumulates four append-only sequences: `ingested` (every byte
//! ever fed, in order), `safe` (the concatenation of the valid UTF-8 runs),
//! `garbage` (the concatenation of the invalid runs) and `spans` (one
//! half-open interval per maximal invalid run, in the coordinates of the
//! chunk being scanned, most recent first).

use crate::errors::Utf8Fault;
use crate::errors::Error;
use crate::scan::copy_range;
use crate::scan::fault_pos;
use crate::scan::find_fault;
use crate::scan::garbage_run_end;
use crate::scan::lemma_scan_bad_run;
use crate::scan::lemma_scan_to_fault;
use crate::scan::lemma_valid_iff_no_fault;
use crate::scan::push_range;
use crate::scan::rest_of;
use crate::scan::run_end;
use crate::scan::scan_garbage;
use crate::scan::scan_safe;
use crate::scan::scan_spans;
use crate::scan::string_from_utf8;
use crate::scan::truncated_scalar;
use crate::scan::ScanHalt;
use vstd::prelude::*;
use vstd::slice::slice_to_vec;
use vstd::string::StrSliceExecFns;
use vstd::utf8::decode_utf8;
use vstd::utf8::encode_utf8;
use vstd::utf8::encode_utf8_decode_utf8;
use vstd::utf8::encode_utf8_valid_utf8;
use vstd::utf8::valid_utf8;
use vstd::utf8::valid_utf8_concat;

verus! {

/// The abstract state of an [`SString`]: the four evidence sequences.
pub struct EvidenceView {
    /// Every byte ever fed, in input order.
    pub ingested: Seq<u8>,
    /// The concatenation, in input order, of the valid UTF-8 runs.
    pub safe: Seq<u8>,
    /// The concatenation, in input order, of the invalid runs.
    pub garbage: Seq<u8>,
    /// One `[start, end)` interval per maximal invalid run, in the
    /// coordinates of the chunk it was found in, most recent first.
    pub spans: Seq<(usize, usize)>,
}

/// A byte-salvaging string: feeds on arbitrary bytes and keeps an internal
/// state comprised of the data fed into it:
///
/// - every ingested byte, in order (the audit trail);
/// - all valid UTF-8 bytes (the safe stream);
/// - all invalid UTF-8 bytes, available for analysis;
/// - the `(start, end)` spans of the invalid runs found while scanning.
#[derive(Clone, PartialEq, Eq, PartialOrd, Ord)]
pub struct SString {
    g: Vec<u8>,
    p: Vec<(usize, usize)>,
    i: Vec<u8>,
    s: Vec<u8>,
}

impl View for SString {
    type V = EvidenceView;

    closed spec fn view(&self) -> EvidenceView {
        EvidenceView { ingested: self.i@, safe: self.s@, garbage: self.g@, spans: self.p@ }
    }
}

/// A recovery strategy: when a chunk stops being valid UTF-8, the scan
/// offers the strategy the remaining unconsumed bytes together with the
/// fault, and the strategy may either splice a substitute string into the
/// safe stream or decline and let the default garbage recording happen.
pub trait OnUtf8Error {
    /// True of a strategy that always declines; the scan's contract is
    /// exact for such strategies.
    spec fn spec_declines(&self) -> bool;

    /// Offered the remaining bytes and the fault; returns a substitute
    /// string to splice into the safe stream in place of the remaining
    /// bytes, or declines by returning a fault.
    fn on_utf8_error(&mut self, remaining: &Vec<u8>, fault: &Utf8Fault) -> (r: Result<
        String,
        Utf8Fault,
    >)
        ensures
            old(self).spec_declines() ==> r is Err && final(self).spec_declines(),
    ;
}

/// The default recovery strategy: always decline, handing the fault back,
/// so that every invalid run is recorded as garbage.
pub struct Propagate;

impl OnUtf8Error for Propagate {
    open spec fn spec_declines(&self) -> bool {
        true
    }

    fn on_utf8_error(&mut self, remaining: &Vec<u8>, fault: &Utf8Fault) -> (r: Result<
        String,
        Utf8Fault,
    >) {
        Err(*fault)
    }
}

impl SString {
    /// The internal invariant: the safe stream is valid UTF-8 by
    /// construction.  Constructors establish it and every method keeps it.
    pub open spec fn wf(&self) -> bool {
        valid_utf8(self@.safe)
    }

    /// Creates a new empty instance.
    pub fn empty() -> (r: SString)
        ensures
            r.wf(),
            r@.ingested == Seq::<u8>::empty(),
            r@.safe == Seq::<u8>::empty(),
            r@.garbage == Seq::<u8>::empty(),
            r@.spans == Seq::<(usize, usize)>::empty(),
    {
        let r = SString { g: Vec::new(), p: Vec::new(), i: Vec::new(), s: Vec::new() };
        proof {
            assert(valid_utf8(Seq::<u8>::empty()));
        }
        r
    }

    /// The principal method: scans one chunk of bytes, appending every
    /// valid UTF-8 run to the safe stream and every invalid run to the
    /// garbage stream with its span recorded.  Before an invalid run is
    /// recorded, `on_utf8_error` is offered the remaining bytes and may
    /// splice in a substitute string instead.  A truncated multi-byte
    /// character at the end of the chunk is left undecided: it is recorded
    /// neither as safe nor as garbage.
    ///
    /// For a strategy that always declines, the outcome is exactly the
    /// default scan: safe gains [`scan_safe`], garbage gains
    /// [`scan_garbage`], and the new spans of [`scan_spans`] are prepended,
    /// most recent first.
    pub fn extend_vec<R: OnUtf8Error>(&mut self, raw: Vec<u8>, on_utf8_error: &mut R)
        requires
            old(self).wf(),
        ensures
            final(self).wf(),
            final(self)@.ingested == old(self)@.ingested + raw@,
            old(self)@.safe.is_prefix_of(final(self)@.safe),
            old(self)@.garbage.is_prefix_of(final(self)@.garbage),
            old(self)@.spans.is_suffix_of(final(self)@.spans),
            old(on_utf8_error).spec_declines() ==> {
                &&& final(self)@.safe == old(self)@.safe + scan_safe(raw@, 0)
                &&& final(self)@.garbage == old(self)@.garbage + scan_garbage(raw@, 0)
                &&& final(self)@.spans == scan_spans(raw@, 0).reverse() + old(self)@.spans
            },
            valid_utf8(raw@) ==> {
                &&& final(self)@.safe == old(self)@.safe + raw@
                &&& final(self)@.garbage == old(self)@.garbage
                &&& final(self)@.spans == old(self)@.spans
            },
    {
        let ghost chunk = raw@;
        let ghost decl = on_utf8_error.spec_declines();
        let n = raw.len();
        let mut ing = copy_range(&raw, 0, n);
        self.i.append(&mut ing);
        let ghost mut sdone: Seq<u8> = Seq::empty();
        let ghost mut gdone: Seq<u8> = Seq::empty();
        let ghost mut pdone: Seq<(usize, usize)> = Seq::empty();
        let mut pos: usize = 0;
        proof {
            assert(sdone + scan_safe(chunk, 0) =~= scan_safe(chunk, 0));
            assert(gdone + scan_garbage(chunk, 0) =~= scan_garbage(chunk, 0));
            assert(pdone + scan_spans(chunk, 0) =~= scan_spans(chunk, 0));
            assert(self@.safe =~= old(self)@.safe + sdone);
            assert(self@.garbage =~= old(self)@.garbage + gdone);
            assert(self@.spans =~= pdone.reverse() + old(self)@.spans);
        }
        loop
            invariant
                raw@ == chunk,
                n == chunk.len(),
                0 <= pos <= chunk.len(),
                self@.ingested == old(self)@.ingested + chunk,
                valid_utf8(self@.safe),
                self@.safe == old(self)@.safe + sdone,
                self@.garbage == old(self)@.garbage + gdone,
                self@.spans == pdone.reverse() + old(self)@.spans,
                decl == old(on_utf8_error).spec_declines(),
                decl ==> on_utf8_error.spec_declines(),
                decl ==> sdone + scan_safe(chunk, pos as int) == scan_safe(chunk, 0),
                decl ==> gdone + scan_garbage(chunk, pos as int) == scan_garbage(chunk, 0),
                decl ==> pdone + scan_spans(chunk, pos as int) == scan_spans(chunk, 0),
                valid_utf8(chunk) ==> pos == 0 && sdone == Seq::<u8>::empty() && gdone == Seq::<
                    u8,
                >::empty() && pdone == Seq::<(usize, usize)>::empty(),
            decreases chunk.len() - pos,
        {
            match find_fault(&raw, pos) {
                ScanHalt::Done => {
                    let m = raw.len();
                    push_range(&mut self.s, &raw, pos, m);
                    proof {
                        lemma_valid_iff_no_fault(chunk, pos as int);
                        valid_utf8_concat(old(self)@.safe + sdone, rest_of(chunk, pos as int));
                        assert((old(self)@.safe + sdone) + chunk.subrange(pos as int, m as int)
                            =~= old(self)@.safe + (sdone + rest_of(chunk, pos as int)));
                        assert(sdone + scan_safe(chunk, pos as int) =~= sdone + rest_of(
                            chunk,
                            pos as int,
                        ));
                        if valid_utf8(chunk) {
                            assert(rest_of(chunk, 0) =~= chunk);
                            lemma_valid_iff_no_fault(chunk, 0);
                            assert(sdone + rest_of(chunk, pos as int) =~= chunk);
                        }
                    }
                    return ;
                },
                ScanHalt::Fault { at, cut } => {
                    proof {
                        if valid_utf8(chunk) {
                            assert(rest_of(chunk, 0) =~= chunk);
                            lemma_valid_iff_no_fault(chunk, 0);
                        }
                        assert(!valid_utf8(chunk));
                    }
                    let fault_len: Option<usize> = if cut {
                        None
                    } else {
                        let e = run_end(&raw, at);
                        Some(e - at)
                    };
                    let remaining = copy_range(&raw, pos, n);
                    let fault = Utf8Fault { valid_up_to: at - pos, error_len: fault_len };
                    match on_utf8_error.on_utf8_error(&remaining, &fault) {
                        Ok(t) => {
                            proof {
                                assert(!decl);
                            }
                            let tb = t.as_str().as_bytes_vec();
                            let tn = tb.len();
                            push_range(&mut self.s, &tb, 0, tn);
                            proof {
                                encode_utf8_valid_utf8(t@);
                                assert(tb@.subrange(0, tn as int) =~= tb@);
                                valid_utf8_concat(old(self)@.safe + sdone, tb@);
                            }
                            return ;
                        },
                        Err(_) => {
                            push_range(&mut self.s, &raw, pos, at);
                            proof {
                                lemma_scan_to_fault(chunk, pos as int);
                                valid_utf8_concat(
                                    old(self)@.safe + sdone,
                                    chunk.subrange(pos as int, at as int),
                                );
                                assert((old(self)@.safe + sdone) + chunk.subrange(
                                    pos as int,
                                    at as int,
                                ) =~= old(self)@.safe + (sdone + chunk.subrange(
                                    pos as int,
                                    at as int,
                                )));
                                let sdone0 = sdone;
                                sdone = sdone0 + chunk.subrange(pos as int, at as int);
                                if decl {
                                    assert(sdone + scan_safe(chunk, at as int) =~= sdone0
                                        + scan_safe(chunk, pos as int));
                                }
                            }
                            if cut {
                                proof {
                                    if decl {
                                        assert(scan_safe(chunk, at as int) =~= Seq::<u8>::empty());
                                        assert(sdone + Seq::<u8>::empty() =~= sdone);
                                        assert(gdone + scan_garbage(chunk, at as int) =~= gdone
                                            + scan_garbage(chunk, pos as int));
                                        assert(pdone + scan_spans(chunk, at as int) =~= pdone
                                            + scan_spans(chunk, pos as int));
                                        assert(scan_safe(chunk, 0) =~= sdone);
                                    }
                                }
                                return ;
                            }
                            let e = match fault_len {
                                Some(fl) => at + fl,
                                None => at,  // unreachable: fault_len is Some when !cut
                            };
                            proof {
                                assert(e as int == garbage_run_end(chunk, at as int));
                                lemma_scan_bad_run(chunk, at as int);
                            }
                            push_range(&mut self.g, &raw, at, e);
                            self.p.insert(0, (at, e));
                            proof {
                                assert((old(self)@.garbage + gdone) + chunk.subrange(
                                    at as int,
                                    e as int,
                                ) =~= old(self)@.garbage + (gdone + chunk.subrange(
                                    at as int,
                                    e as int,
                                )));
                                let gdone0 = gdone;
                                gdone = gdone0 + chunk.subrange(at as int, e as int);
                                let span = (at, e);
                                let pdone0 = pdone;
                                assert(self@.spans =~= seq![span] + (pdone0.reverse() + old(
                                    self,
                                )@.spans));
                                assert(pdone0.push(span).reverse() =~= seq![span]
                                    + pdone0.reverse());
                                assert(seq![span] + (pdone0.reverse() + old(self)@.spans)
                                    =~= pdone0.push(span).reverse() + old(self)@.spans);
                                pdone = pdone0.push(span);
                                if decl {
                                    assert(gdone + scan_garbage(chunk, e as int) =~= gdone0
                                        + scan_garbage(chunk, at as int));
                                    assert(pdone + scan_spans(chunk, e as int) =~= pdone0 + (
                                    seq![span] + scan_spans(chunk, e as int)));
                                }
                            }
                            pos = e;
                        },
                    }
                },
            }
        }
    }

    /// Creates a new instance by scanning a complete byte buffer with the
    /// default declining strategy.
    pub fn new(raw: &[u8]) -> (r: SString)
        ensures
            r.wf(),
            r@.ingested == raw@,
            r@.safe == scan_safe(raw@, 0),
            r@.garbage == scan_garbage(raw@, 0),
            r@.spans == scan_spans(raw@, 0).reverse(),
    {
        let mut out = SString::empty();
        let mut handler = Propagate;
        out.extend_vec(slice_to_vec(raw), &mut handler);
        proof {
            assert(out@.ingested =~= raw@);
            assert(out@.safe =~= scan_safe(raw@, 0));
            assert(out@.garbage =~= scan_garbage(raw@, 0));
            assert(out@.spans =~= scan_spans(raw@, 0).reverse());
        }
        out
    }

    /// Processes a single byte as a one-byte chunk, consulting the given
    /// recovery strategy like [`SString::extend_vec`] does.
    pub fn append<R: OnUtf8Error>(&mut self, byte: u8, on_utf8_error: &mut R)
        requires
            old(self).wf(),
        ensures
            final(self).wf(),
            final(self)@.ingested == old(self)@.ingested + seq![byte],
            old(self)@.safe.is_prefix_of(final(self)@.safe),
            old(self)@.garbage.is_prefix_of(final(self)@.garbage),
            old(self)@.spans.is_suffix_of(final(self)@.spans),
            old(on_utf8_error).spec_declines() ==> {
                &&& final(self)@.safe == old(self)@.safe + scan_safe(seq![byte], 0)
                &&& final(self)@.garbage == old(self)@.garbage + scan_garbage(seq![byte], 0)
                &&& final(self)@.spans == scan_spans(seq![byte], 0).reverse() + old(self)@.spans
            },
    {
        let mut one: Vec<u8> = Vec::new();
        one.push(byte);
        proof {
            assert(one@ =~= seq![byte]);
        }
        self.extend_vec(one, on_utf8_error)
    }

    /// Processes a single byte as a one-byte chunk with the default
    /// declining strategy.
    pub fn push(&mut self, byte: u8)
        requires
            old(self).wf(),
        ensures
            final(self).wf(),
            final(self)@.ingested == old(self)@.ingested + seq![byte],
            final(self)@.safe == old(self)@.safe + scan_safe(seq![byte], 0),
            final(self)@.garbage == old(self)@.garbage + scan_garbage(seq![byte], 0),
            final(self)@.spans == scan_spans(seq![byte], 0).reverse() + old(self)@.spans,
    {
        let mut handler = Propagate;
        self.append(byte, &mut handler)
    }

    /// The strict reading: succeeds with the whole ingested buffer as a
    /// string when that buffer is valid UTF-8 in its entirety, checking it
    /// again as one unit without leaning on the incremental bookkeeping.
    /// Otherwise it fails with [`Error::UnsafeString`] when garbage was
    /// accumulated, and with the forensic [`Error::InvalidUtf8`] when the
    /// two checks disagree: the whole buffer fails although no garbage was
    /// recorded.
    pub fn safe(&self) -> (r: Result<String, Error>)
        requires
            self.wf(),
        ensures
            match r {
                Ok(t) => valid_utf8(self@.ingested) && t@ == decode_utf8(self@.ingested),
                Err(e) => !valid_utf8(self@.ingested) && (match e {
                    Error::UnsafeString(sv, gv) => self@.garbage.len() > 0 && sv@ == self@.safe
                        && gv@ == self@.garbage,
                    Error::InvalidUtf8(f, gv, pv, iv, sv) => {
                        &&& self@.garbage.len() == 0
                        &&& f.valid_up_to as int == fault_pos(self@.ingested, 0)
                        &&& (f.error_len is None <==> truncated_scalar(
                            rest_of(self@.ingested, f.valid_up_to as int),
                        ))
                        &&& (f.error_len matches Some(l) ==> l as int == garbage_run_end(
                            self@.ingested,
                            f.valid_up_to as int,
                        ) - f.valid_up_to)
                        &&& gv@ == self@.garbage
                        &&& pv@ == self@.spans
                        &&& iv@ == self@.ingested
                        &&& sv@ == self@.safe
                    },
                    Error::ParseError(_) => false,
                }),
            },
    {
        proof {
            assert(rest_of(self.i@, 0) =~= self.i@);
        }
        match find_fault(&self.i, 0) {
            ScanHalt::Done => {
                let n = self.i.len();
                let whole = copy_range(&self.i, 0, n);
                proof {
                    assert(whole@ =~= self@.ingested);
                }
                let t = string_from_utf8(whole);
                proof {
                    encode_utf8_decode_utf8(t@);
                }
                Ok(t)
            },
            ScanHalt::Fault { at, cut } => {
                proof {
                    lemma_valid_iff_no_fault(self.i@, 0);
                }
                if self.g.len() > 0 {
                    let sn = self.s.len();
                    let gn = self.g.len();
                    let sv = copy_range(&self.s, 0, sn);
                    let gv = copy_range(&self.g, 0, gn);
                    proof {
                        assert(sv@ =~= self@.safe);
                        assert(gv@ =~= self@.garbage);
                    }
                    Err(Error::UnsafeString(sv, gv))
                } else {
                    let error_len: Option<usize> = if cut {
                        None
                    } else {
                        let e = run_end(&self.i, at);
                        Some(e - at)
                    };
                    let fault = Utf8Fault { valid_up_to: at, error_len };
                    let gn = self.g.len();
                    let in_ = self.i.len();
                    let sn = self.s.len();
                    let gv = copy_range(&self.g, 0, gn);
                    let pv = copy_spans(&self.p);
                    let iv = copy_range(&self.i, 0, in_);
                    let sv = copy_range(&self.s, 0, sn);
                    proof {
                        assert(gv@ =~= self@.garbage);
                        assert(iv@ =~= self@.ingested);
                        assert(sv@ =~= self@.safe);
                    }
                    Err(Error::InvalidUtf8(fault, gv, pv, iv, sv))
                }
            },
        }
    }

    /// The best-effort reading: the safe stream decoded as a string.  It
    /// is total — the safe stream is valid UTF-8 by construction.
    pub fn unchecked_safe(&self) -> (r: String)
        requires
            self.wf(),
        ensures
            r@ == decode_utf8(self@.safe),
    {
        let n = self.s.len();
        let bytes = copy_range(&self.s, 0, n);
        proof {
            assert(bytes@ =~= self@.safe);
        }
        let r = string_from_utf8(bytes);
        proof {
            encode_utf8_decode_utf8(r@);
        }
        r
    }

    /// The length of the accumulated non-valid UTF-8 bytes.
    pub fn garbage_len(&self) -> (r: usize)
        ensures
            r == self@.garbage.len(),
    {
        self.g.len()
    }

    /// A copy of all the accumulated non-valid UTF-8 bytes, in input
    /// order.
    pub fn garbage(&self) -> (r: Vec<u8>)
        ensures
            r@ == self@.garbage,
    {
        let n = self.g.len();
        let r = copy_range(&self.g, 0, n);
        proof {
            assert(r@ =~= self@.garbage);
        }
        r
    }

    /// True when at least one non-valid UTF-8 byte was accumulated.
    pub fn has_garbage(&self) -> (r: bool)
        ensures
            r == (self@.garbage.len() > 0),
    {
        self.garbage_len() > 0
    }

    /// The length of the accumulated safe (valid UTF-8) bytes.
    pub fn safe_len(&self) -> (r: usize)
        ensures
            r == self@.safe.len(),
    {
        self.s.len()
    }

    /// A copy of all the accumulated safe (valid UTF-8) bytes, in input
    /// order.
    pub fn safe_vec(&self) -> (r: Vec<u8>)
        ensures
            r@ == self@.safe,
    {
        let n = self.s.len();
        let r = copy_range(&self.s, 0, n);
        proof {
            assert(r@ =~= self@.safe);
        }
        r
    }

    /// The number of bytes fed in so far, safe and unsafe alike.
    pub fn len(&self) -> (r: usize)
        ensures
            r == self@.ingested.len(),
    {
        self.i.len()
    }

    /// The safe stream decoded as an owned copy-on-write string.
    pub fn tocow(&self) -> (r: std::borrow::Cow<'static, str>)
        requires
            self.wf(),
        ensures
            r@ == decode_utf8(self@.safe),
    {
        std::borrow::Cow::Owned(self.unchecked_safe())
    }

    /// A copy of the recorded `(start, end)` spans of the invalid runs,
    /// most recent first, each in the coordinates of the chunk it was
    /// found in.
    pub fn valid_utf8_chunk_boundaries(&self) -> (r: Vec<(usize, usize)>)
        ensures
            r@ == self@.spans,
    {
        copy_spans(&self.p)
    }
}

impl From<Vec<u8>> for SString {
    /// Scans an owned byte vector.
    fn from(p: Vec<u8>) -> (r: SString)
        ensures
            r.wf(),
            r@.ingested == p@,
            r@.safe == scan_safe(p@, 0),
            r@.garbage == scan_garbage(p@, 0),
            r@.spans == scan_spans(p@, 0).reverse(),
    {
        SString::new(p.as_slice())
    }
}

impl vstd::std_specs::convert::FromSpecImpl<Vec<u8>> for SString {
    open spec fn obeys_from_spec() -> bool {
        false
    }

    open spec fn from_spec(t: Vec<u8>) -> SString {
        vstd::pervasive::arbitrary()
    }
}

impl From<&[u8]> for SString {
    /// Scans a borrowed byte slice.
    fn from(p: &[u8]) -> (r: SString)
        ensures
            r.wf(),
            r@.ingested == p@,
            r@.safe == scan_safe(p@, 0),
            r@.garbage == scan_garbage(p@, 0),
            r@.spans == scan_spans(p@, 0).reverse(),
    {
        SString::new(p)
    }
}

impl vstd::std_specs::convert::FromSpecImpl<&[u8]> for SString {
    open spec fn obeys_from_spec() -> bool {
        false
    }

    open spec fn from_spec(t: &[u8]) -> SString {
        vstd::pervasive::arbitrary()
    }
}

impl From<String> for SString {
    /// Scans the UTF-8 bytes of an owned string.
    fn from(p: String) -> (r: SString)
        ensures
            r.wf(),
            r@.ingested == encode_utf8(p@),
            r@.safe == scan_safe(encode_utf8(p@), 0),
            r@.garbage == scan_garbage(encode_utf8(p@), 0),
            r@.spans == scan_spans(encode_utf8(p@), 0).reverse(),
    {
        SString::new(p.as_str().as_bytes())
    }
}

impl vstd::std_specs::convert::FromSpecImpl<String> for SString {
    open spec fn obeys_from_spec() -> bool {
        false
    }

    open spec fn from_spec(t: String) -> SString {
        vstd::pervasive::arbitrary()
    }
}

impl From<&str> for SString {
    /// Scans the UTF-8 bytes of a borrowed string.
    fn from(p: &str) -> (r: SString)
        ensures
            r.wf(),
            r@.ingested == encode_utf8(p@),
            r@.safe == scan_safe(encode_utf8(p@), 0),
            r@.garbage == scan_garbage(encode_utf8(p@), 0),
            r@.spans == scan_spans(encode_utf8(p@), 0).reverse(),
    {
        SString::new(p.as_bytes())
    }
}

impl vstd::std_specs::convert::FromSpecImpl<&str> for SString {
    open spec fn obeys_from_spec() -> bool {
        false
    }

    open spec fn from_spec(t: &str) -> SString {
        vstd::pervasive::arbitrary()
    }
}

impl Default for SString {
    /// The empty evidence value.
    fn default() -> (r: SString)
        ensures
            r.wf(),
            r@.ingested == Seq::<u8>::empty(),
            r@.safe == Seq::<u8>::empty(),
            r@.garbage == Seq::<u8>::empty(),
            r@.spans == Seq::<(usize, usize)>::empty(),
    {
        SString::empty()
    }
}

/// Returns a copy of a span list.
fn copy_spans(src: &Vec<(usize, usize)>) -> (r: Vec<(usize, usize)>)
    ensures
        r@ == src@,
{
    let mut out: Vec<(usize, usize)> = Vec::new();
    let n = src.len();
    let mut k: usize = 0;
    while k < n
        invariant
            k <= n,
            n == src@.len(),
            out@ == src@.subrange(0, k as int),
        decreases n - k,
    {
        out.push(src[k]);
        proof {
            assert(out@ =~= src@.subrange(0, (k + 1) as int));
        }
        k = k + 1;
    }
    proof {
        assert(out@ =~= src@);
    }
    out
}

} // verus!
