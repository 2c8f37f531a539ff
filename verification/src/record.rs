//! The payload of commits and tags: header lines `key SP value LF`, an empty
//! line, then the free-text message.

use vstd::prelude::*;
use crate::bytes::{
    copy_range, find_byte, lemma_first_found, lemma_first_is, push_all, same_bytes, NEWLINE, SPACE,
};

verus! {

/// One header line.
#[derive(Clone, Debug, PartialEq, Eq)]
pub struct Header {
    pub key: Vec<u8>,
    pub value: Vec<u8>,
}

pub struct HeaderView {
    pub key: Seq<u8>,
    pub value: Seq<u8>,
}

impl View for Header {
    type V = HeaderView;

    open spec fn view(&self) -> HeaderView {
        HeaderView { key: self.key@, value: self.value@ }
    }
}

/// Headers in the order in which they are written, and the message.
#[derive(Clone, Debug, PartialEq, Eq)]
pub struct Record {
    pub headers: Vec<Header>,
    pub message: Vec<u8>,
}

pub struct RecordView {
    pub headers: Seq<HeaderView>,
    pub message: Seq<u8>,
}

impl View for Record {
    type V = RecordView;

    open spec fn view(&self) -> RecordView {
        RecordView { headers: self.headers@.map_values(|h: Header| h@), message: self.message@ }
    }
}

pub open spec fn no_byte(s: Seq<u8>, b: u8) -> bool {
    forall|i: int| 0 <= i < s.len() ==> s[i] != b
}

/// Whether `b` occurs in `s`.
pub fn has_byte(s: &[u8], b: u8) -> (r: bool)
    ensures
        r == !no_byte(s@, b),
{
    let r = find_byte(s, 0, b);
    proof {
        assert(s@.subrange(0, s@.len() as int) =~= s@);
        lemma_first_found(s@, b);
    }
    r.is_some()
}

/// A header that can be written on one line and read back: no space or line
/// feed in the key, no line feed in the value.
pub open spec fn header_ok(h: HeaderView) -> bool {
    &&& no_byte(h.key, SPACE)
    &&& no_byte(h.key, NEWLINE)
    &&& no_byte(h.value, NEWLINE)
}

pub open spec fn headers_ok(hs: Seq<HeaderView>) -> bool {
    forall|i: int| 0 <= i < hs.len() ==> header_ok(#[trigger] hs[i])
}

pub open spec fn header_line(h: HeaderView) -> Seq<u8> {
    h.key + seq![SPACE] + h.value + seq![NEWLINE]
}

/// The payload bytes of a record: its header lines in order, an empty line,
/// the message.
pub open spec fn record_bytes(headers: Seq<HeaderView>, message: Seq<u8>) -> Seq<u8>
    decreases headers.len(),
{
    if headers.len() == 0 {
        seq![NEWLINE] + message
    } else {
        header_line(headers[0]) + record_bytes(headers.skip(1), message)
    }
}

/// What a payload reads as: header lines up to the first empty line, each
/// split at its first space, then the rest as the message. `None` where the
/// header block does not end in an empty line or a line has no space.
pub open spec fn parse_record(t: Seq<u8>) -> Option<RecordView>
    decreases t.len(),
{
    if t.len() == 0 {
        None
    } else if t[0] == NEWLINE {
        Some(RecordView { headers: Seq::empty(), message: t.subrange(1, t.len() as int) })
    } else {
        match t.index_of_first(NEWLINE) {
            Some(nl) if 0 <= nl < t.len() => {
                let line = t.subrange(0, nl);
                match line.index_of_first(SPACE) {
                    Some(sp) => match parse_record(t.subrange(nl + 1, t.len() as int)) {
                        Some(rest) => Some(
                            RecordView {
                                headers: seq![
                                    HeaderView {
                                        key: line.subrange(0, sp),
                                        value: line.subrange(sp + 1, line.len() as int),
                                    },
                                ] + rest.headers,
                                message: rest.message,
                            },
                        ),
                        None => None,
                    },
                    None => None,
                }
            },
            _ => None,
        }
    }
}

/// Reading what was written gives the record back.
pub proof fn lemma_record_read_back(headers: Seq<HeaderView>, message: Seq<u8>)
    requires
        headers_ok(headers),
    ensures
        parse_record(record_bytes(headers, message)) == Some(
            RecordView { headers, message },
        ),
    decreases headers.len(),
{
    let t = record_bytes(headers, message);
    if headers.len() == 0 {
        assert(t.subrange(1, t.len() as int) =~= message);
        assert(headers =~= Seq::<HeaderView>::empty());
    } else {
        let h = headers[0];
        let rest = headers.skip(1);
        let tail = record_bytes(rest, message);
        assert(header_ok(h));
        assert forall|i: int| 0 <= i < rest.len() implies header_ok(#[trigger] rest[i]) by {
            assert(rest[i] == headers[i + 1]);
        }
        lemma_record_read_back(rest, message);
        let nl: int = (h.key.len() + 1 + h.value.len()) as int;
        assert(t =~= header_line(h) + tail);
        assert(t[0] != NEWLINE) by {
            if h.key.len() > 0 {
                assert(t[0] == h.key[0]);
            }
        }
        assert forall|j: int| 0 <= j < nl implies t[j] != NEWLINE by {
            if j < h.key.len() {
                assert(t[j] == h.key[j]);
            } else if j > h.key.len() {
                assert(t[j] == h.value[j - h.key.len() - 1]);
            }
        }
        assert(t[nl] == NEWLINE);
        lemma_first_is(t, NEWLINE, nl);
        let line = t.subrange(0, nl);
        assert(line =~= h.key + seq![SPACE] + h.value);
        assert forall|j: int| 0 <= j < h.key.len() implies line[j] != SPACE by {
            assert(line[j] == h.key[j]);
        }
        lemma_first_is(line, SPACE, h.key.len() as int);
        assert(t.subrange(nl + 1, t.len() as int) =~= tail);
        assert(line.subrange(0, h.key.len() as int) =~= h.key);
        assert(line.subrange(h.key.len() as int + 1, line.len() as int) =~= h.value);
        assert(seq![h] + rest =~= headers);
    }
}

/// What was read is written back as the same bytes, and every header read
/// fits on one line.
pub proof fn lemma_record_write_back(t: Seq<u8>)
    requires
        parse_record(t) is Some,
    ensures
        headers_ok(parse_record(t).unwrap().headers),
        record_bytes(parse_record(t).unwrap().headers, parse_record(t).unwrap().message) == t,
    decreases t.len(),
{
    let r = parse_record(t).unwrap();
    if t[0] == NEWLINE {
        assert(record_bytes(r.headers, r.message) =~= t);
    } else {
        lemma_first_found(t, NEWLINE);
        let nl = t.index_of_first(NEWLINE).unwrap();
        let line = t.subrange(0, nl);
        lemma_first_found(line, SPACE);
        let sp = line.index_of_first(SPACE).unwrap();
        let next = t.subrange(nl + 1, t.len() as int);
        lemma_record_write_back(next);
        let rest = parse_record(next).unwrap();
        let h = HeaderView { key: line.subrange(0, sp), value: line.subrange(sp + 1, line.len() as int) };
        assert(r.headers =~= seq![h] + rest.headers);
        assert(r.headers[0] == h);
        assert(r.headers.skip(1) =~= rest.headers);
        assert(header_ok(h)) by {
            assert forall|i: int| 0 <= i < h.key.len() implies h.key[i] != NEWLINE by {
                assert(h.key[i] == t[i]);
            }
            assert forall|i: int| 0 <= i < h.key.len() implies h.key[i] != SPACE by {
                assert(h.key[i] == line[i]);
            }
            assert forall|i: int| 0 <= i < h.value.len() implies h.value[i] != NEWLINE by {
                assert(h.value[i] == t[sp + 1 + i]);
            }
        }
        assert forall|i: int| 0 <= i < r.headers.len() implies header_ok(#[trigger] r.headers[i]) by {
            if i > 0 {
                assert(r.headers[i] == rest.headers[i - 1]);
            }
        }
        assert(header_line(h) =~= t.subrange(0, nl + 1));
        assert(t =~= t.subrange(0, nl + 1) + next);
    }
}

pub open spec fn header_keys(headers: Seq<HeaderView>) -> Seq<Seq<u8>> {
    headers.map_values(|h: HeaderView| h.key)
}

/// The value of the first header with this key.
pub open spec fn header_value(headers: Seq<HeaderView>, key: Seq<u8>) -> Option<Seq<u8>> {
    match header_keys(headers).index_of_first(key) {
        Some(i) => Some(headers[i].value),
        None => None,
    }
}

/// The value of the first header of `rec` with this key.
pub fn find_header(rec: &Record, key: &[u8]) -> (r: Option<Vec<u8>>)
    ensures
        match r {
            Some(v) => header_value(rec@.headers, key@) == Some(v@),
            None => header_value(rec@.headers, key@) is None,
        },
{
    let ghost keys = header_keys(rec@.headers);
    let mut i: usize = 0;
    while i < rec.headers.len()
        invariant
            0 <= i <= rec.headers@.len(),
            keys == header_keys(rec@.headers),
            forall|j: int| 0 <= j < i ==> keys[j] != key@,
        decreases rec.headers@.len() - i,
    {
        assert(keys[i as int] == rec.headers@[i as int].key@);
        if same_bytes(rec.headers[i].key.as_slice(), key) {
            proof {
                lemma_first_is(keys, key@, i as int);
                assert(rec@.headers[i as int].value == rec.headers@[i as int].value@);
            }
            let value = copy_range(rec.headers[i].value.as_slice(), 0, rec.headers[i].value.len());
            assert(value@ =~= rec.headers@[i as int].value@);
            return Some(value);
        }
        i = i + 1;
    }
    proof {
        lemma_first_found(keys, key@);
    }
    None
}

/// The values of all headers with this key, in their order.
pub open spec fn header_values(headers: Seq<HeaderView>, key: Seq<u8>) -> Seq<Seq<u8>>
    decreases headers.len(),
{
    if headers.len() == 0 {
        Seq::empty()
    } else if headers.last().key == key {
        header_values(headers.drop_last(), key).push(headers.last().value)
    } else {
        header_values(headers.drop_last(), key)
    }
}

pub open spec fn byte_strings(v: Seq<Vec<u8>>) -> Seq<Seq<u8>> {
    v.map_values(|s: Vec<u8>| s@)
}

/// The values of all headers of `rec` with this key, in their order.
pub fn find_headers(rec: &Record, key: &[u8]) -> (r: Vec<Vec<u8>>)
    ensures
        byte_strings(r@) == header_values(rec@.headers, key@),
{
    let ghost hs = rec@.headers;
    let mut out: Vec<Vec<u8>> = Vec::new();
    let mut i: usize = 0;
    assert(hs.subrange(0, 0) =~= Seq::<HeaderView>::empty());
    assert(byte_strings(out@) =~= Seq::<Seq<u8>>::empty());
    while i < rec.headers.len()
        invariant
            0 <= i <= rec.headers@.len(),
            hs == rec@.headers,
            byte_strings(out@) == header_values(hs.subrange(0, i as int), key@),
        decreases rec.headers@.len() - i,
    {
        let ghost before = byte_strings(out@);
        let ghost upto = hs.subrange(0, i + 1);
        proof {
            assert(upto.drop_last() =~= hs.subrange(0, i as int));
            assert(upto.last() == rec.headers@[i as int]@);
        }
        if same_bytes(rec.headers[i].key.as_slice(), key) {
            let v = copy_range(rec.headers[i].value.as_slice(), 0, rec.headers[i].value.len());
            assert(v@ =~= rec.headers@[i as int].value@);
            out.push(v);
            assert(byte_strings(out@) =~= before.push(v@));
        }
        i = i + 1;
    }
    assert(hs.subrange(0, i as int) =~= hs);
    out
}

impl Record {
    /// Every header fits on one line.
    pub open spec fn wf(&self) -> bool {
        headers_ok(self@.headers)
    }

    /// Whether every header fits on one line.
    pub fn is_wf(&self) -> (r: bool)
        ensures
            r == self.wf(),
    {
        let ghost hs = self@.headers;
        let mut i: usize = 0;
        while i < self.headers.len()
            invariant
                0 <= i <= self.headers@.len(),
                hs == self@.headers,
                forall|j: int| 0 <= j < i ==> header_ok(#[trigger] hs[j]),
            decreases self.headers@.len() - i,
        {
            let h = &self.headers[i];
            assert(hs[i as int] == h@);
            if has_byte(h.key.as_slice(), SPACE) || has_byte(h.key.as_slice(), NEWLINE) || has_byte(
                h.value.as_slice(),
                NEWLINE,
            ) {
                return false;
            }
            i = i + 1;
        }
        true
    }

    /// The value of the first header with this key.
    pub fn header(&self, key: &[u8]) -> (r: Option<Vec<u8>>)
        ensures
            match r {
                Some(v) => header_value(self@.headers, key@) == Some(v@),
                None => header_value(self@.headers, key@) is None,
            },
    {
        find_header(self, key)
    }

    /// Writes the payload.
    pub fn serialize(&self) -> (out: Vec<u8>)
        ensures
            out@ == record_bytes(self@.headers, self@.message),
    {
        let mut out: Vec<u8> = Vec::new();
        let mut i: usize = 0;
        let ghost hs = self@.headers;
        proof {
            assert(hs.skip(0) =~= hs);
            assert(out@ + record_bytes(hs, self@.message) =~= record_bytes(hs, self@.message));
        }
        while i < self.headers.len()
            invariant
                0 <= i <= self.headers@.len(),
                hs == self@.headers,
                out@ + record_bytes(hs.skip(i as int), self@.message) == record_bytes(
                    hs,
                    self@.message,
                ),
            decreases self.headers@.len() - i,
        {
            let h = &self.headers[i];
            let ghost before = out@;
            push_all(&mut out, h.key.as_slice());
            out.push(SPACE);
            push_all(&mut out, h.value.as_slice());
            out.push(NEWLINE);
            proof {
                let rem = hs.skip(i as int);
                assert(rem[0] == h@);
                assert(rem.skip(1) =~= hs.skip(i + 1));
                assert(out@ =~= before + header_line(h@));
                assert(out@ + record_bytes(hs.skip(i + 1), self@.message) =~= before
                    + record_bytes(rem, self@.message));
            }
            i = i + 1;
        }
        let ghost before = out@;
        out.push(NEWLINE);
        push_all(&mut out, self.message.as_slice());
        proof {
            assert(hs.skip(i as int).len() == 0);
            assert(out@ =~= before + record_bytes(hs.skip(i as int), self@.message));
        }
        out
    }

    /// Reads a payload.
    pub fn parse(t: &[u8]) -> (r: Option<Record>)
        ensures
            match r {
                Some(rec) => parse_record(t@) == Some(rec@),
                None => parse_record(t@) is None,
            },
    {
        let mut headers: Vec<Header> = Vec::new();
        let mut pos: usize = 0;
        let n = t.len();
        proof {
            assert(t@.subrange(0, n as int) =~= t@);
            let whole = parse_record(t@);
            if whole is Some {
                assert(headers@.map_values(|h: Header| h@) + whole.unwrap().headers
                    =~= whole.unwrap().headers);
            }
        }
        loop
            invariant
                0 <= pos <= n,
                n == t@.len(),
                parse_record(t@) == (match parse_record(t@.subrange(pos as int, n as int)) {
                    Some(rest) => Some(
                        RecordView {
                            headers: headers@.map_values(|h: Header| h@) + rest.headers,
                            message: rest.message,
                        },
                    ),
                    None => None,
                }),
            decreases n - pos,
        {
            let ghost tail = t@.subrange(pos as int, n as int);
            let ghost done = headers@.map_values(|h: Header| h@);
            if pos == n {
                return None;
            }
            assert(tail[0] == t@[pos as int]);
            if t[pos] == NEWLINE {
                let message = copy_range(t, pos + 1, n);
                let rec = Record { headers, message };
                proof {
                    assert(tail.subrange(1, tail.len() as int) =~= message@);
                    assert(done + Seq::<HeaderView>::empty() =~= done);
                }
                return Some(rec);
            }
            let nl = match find_byte(t, pos, NEWLINE) {
                Some(nl) => nl,
                None => {
                    return None;
                },
            };
            let ghost line = tail.subrange(0, nl - pos);
            proof {
                lemma_first_found(tail, NEWLINE);
            }
            let sp = match find_byte(t, pos, SPACE) {
                Some(sp) if sp < nl => sp,
                _ => {
                    proof {
                        lemma_first_found(tail, SPACE);
                        lemma_first_found(line, SPACE);
                        if line.index_of_first(SPACE) is Some {
                            let k = line.index_of_first(SPACE).unwrap();
                            assert(tail[k] == line[k]);
                        }
                    }
                    return None;
                },
            };
            proof {
                lemma_first_found(tail, SPACE);
                assert forall|j: int| 0 <= j < sp - pos implies line[j] != SPACE by {
                    assert(line[j] == tail[j]);
                }
                assert(line[sp - pos] == tail[sp - pos]);
                lemma_first_is(line, SPACE, sp - pos);
            }
            let key = copy_range(t, pos, sp);
            let value = copy_range(t, sp + 1, nl);
            let h = Header { key, value };
            proof {
                assert(line.subrange(0, sp - pos) =~= h@.key);
                assert(line.subrange(sp - pos + 1, line.len() as int) =~= h@.value);
                assert(tail.subrange(nl - pos + 1, tail.len() as int) =~= t@.subrange(
                    nl + 1,
                    n as int,
                ));
                let next = parse_record(t@.subrange(nl + 1, n as int));
                if next is Some {
                    assert((done.push(h@)) + next.unwrap().headers =~= done + (seq![h@]
                        + next.unwrap().headers));
                }
                assert(headers@.push(h).map_values(|h: Header| h@) =~= done.push(h@));
            }
            headers.push(h);
            pos = nl + 1;
        }
    }
}

} // verus!
