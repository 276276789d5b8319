//! The line reader: byte-at-a-time consumption of a received byte stream,
//! split into text lines terminated by a line-feed byte.

use vstd::prelude::*;
use vstd::utf8::{decode_utf8, valid_utf8};

use crate::error::HttpError;

verus! {

/// Index of the first line-feed byte (0x0A) in `s`, or `s.len()` when `s`
/// holds none.
pub open spec fn lf_index(s: Seq<u8>) -> nat
    decreases s.len(),
{
    if s.len() == 0 {
        0
    } else if s[0] == 10u8 {
        0
    } else {
        1 + lf_index(s.skip(1))
    }
}

/// `lf_index` finds the first line feed: it never runs past the end, it lands
/// on a line feed whenever one exists, and nothing before it is a line feed.
pub proof fn lemma_lf_index(s: Seq<u8>)
    ensures
        lf_index(s) <= s.len(),
        lf_index(s) < s.len() ==> s[lf_index(s) as int] == 10u8,
        forall|j: int| 0 <= j < lf_index(s) ==> s[j] != 10u8,
    decreases s.len(),
{
    if s.len() == 0 {
    } else if s[0] == 10u8 {
    } else {
        lemma_lf_index(s.skip(1));
        assert forall|j: int| 0 <= j < lf_index(s) implies s[j] != 10u8 by {
            if j > 0 {
                assert(s.skip(1)[j - 1] == s[j]);
            }
        }
        if lf_index(s) < s.len() {
            assert(s.skip(1)[lf_index(s) as int - 1] == s[lf_index(s) as int]);
        }
    }
}

/// The content of the first line of `s`: the bytes before the first line
/// feed, with one trailing carriage-return byte (0x0D), if present, stripped.
pub open spec fn line_content(s: Seq<u8>) -> Seq<u8>
    recommends
        lf_index(s) < s.len(),
{
    let raw = s.take(lf_index(s) as int);
    if raw.len() > 0 && raw[raw.len() - 1] == 13u8 {
        raw.drop_last()
    } else {
        raw
    }
}

/// What remains of `s` after the first line and its terminator.
pub open spec fn line_rest(s: Seq<u8>) -> Seq<u8>
    recommends
        lf_index(s) < s.len(),
{
    s.skip(lf_index(s) as int + 1)
}

/// What reading one line from the stream `s` yields: `ConnectionAborted` when
/// the stream ends before a line feed, `DecodingError` when the line's bytes
/// are not valid UTF-8, and the decoded characters otherwise.
pub open spec fn spec_read_line(s: Seq<u8>) -> Result<Seq<char>, HttpError> {
    if lf_index(s) >= s.len() {
        Err(HttpError::ConnectionAborted)
    } else if !valid_utf8(line_content(s)) {
        Err(HttpError::DecodingError)
    } else {
        Ok(decode_utf8(line_content(s)))
    }
}

/// A cursor over the bytes received on one connection. The parser owns it for
/// the duration of one request and consumes bytes from front to back.
pub struct ByteStream {
    data: Vec<u8>,
    pos: usize,
}

impl ByteStream {
    /// The cursor never points past the end of its bytes.
    pub closed spec fn wf(&self) -> bool {
        self.pos <= self.data@.len()
    }

    /// The bytes not yet consumed.
    pub closed spec fn remaining(&self) -> Seq<u8> {
        self.data@.skip(self.pos as int)
    }

    /// A fresh cursor over `data`, positioned at its first byte.
    pub fn new(data: Vec<u8>) -> (r: ByteStream)
        ensures
            r.wf(),
            r.remaining() == data@,
    {
        let r = ByteStream { data, pos: 0 };
        proof {
            assert(r.remaining() =~= r.data@);
        }
        r
    }

    /// How many bytes are left to consume.
    pub fn remaining_len(&self) -> (r: usize)
        requires
            self.wf(),
        ensures
            r == self.remaining().len(),
    {
        self.data.len() - self.pos
    }
}

/// Relies on `String::from_utf8`: it returns the string decoded from the
/// given bytes exactly when they are valid UTF-8, and refuses them otherwise.
#[verifier::external_body]
fn bytes_to_string(b: Vec<u8>) -> (r: Option<String>)
    ensures
        match r {
            Some(s) => valid_utf8(b@) && s@ == decode_utf8(b@),
            None => !valid_utf8(b@),
        },
{
    String::from_utf8(b).ok()
}

/// Read the next line from the stream: every byte up to and including the
/// first line feed is consumed, a single carriage return immediately before
/// the line feed is stripped, and the rest is returned decoded as text.
///
/// When the stream ends before any line feed — even with bytes already
/// accumulated — the whole remainder is consumed and the read fails with
/// `ConnectionAborted`; no partial line is returned.
pub fn read_line(stream: &mut ByteStream) -> (r: Result<String, HttpError>)
    requires
        old(stream).wf(),
    ensures
        final(stream).wf(),
        match spec_read_line(old(stream).remaining()) {
            Ok(chars) => r matches Ok(s) && s@ == chars,
            Err(e) => r matches Err(a) && a == e,
        },
        lf_index(old(stream).remaining()) < old(stream).remaining().len()
            ==> final(stream).remaining() == line_rest(old(stream).remaining()),
        lf_index(old(stream).remaining()) >= old(stream).remaining().len()
            ==> final(stream).remaining().len() == 0,
{
    let ghost orig: Seq<u8> = stream.remaining();
    let start = stream.pos;
    let data_len = stream.data.len();
    let mut i: usize = start;
    while i < data_len && stream.data[i] != 10u8
        invariant
            stream == old(stream),
            stream.wf(),
            start == stream.pos,
            data_len == stream.data@.len(),
            start <= i <= data_len,
            forall|j: int| start <= j < i ==> stream.data@[j] != 10u8,
        decreases data_len - i,
    {
        i = i + 1;
    }
    proof {
        lemma_lf_index(orig);
        assert forall|k: int| 0 <= k < i - start implies orig[k] != 10u8 by {
            assert(orig[k] == stream.data@[start + k]);
        }
    }
    if i == data_len {
        // No line feed anywhere in the remainder: the client closed early.
        proof {
            // If a line feed existed, its position would contradict the scan.
            if lf_index(orig) < orig.len() {
                assert(orig[lf_index(orig) as int] == stream.data@[start + lf_index(orig)]);
            }
        }
        stream.pos = data_len;
        proof {
            assert(stream.remaining().len() == 0);
        }
        return Err(HttpError::ConnectionAborted);
    }
    proof {
        assert(orig[i - start] == stream.data@[i as int]);
        // The scan stopped on the first line feed of the remainder.
        assert(lf_index(orig) == i - start);
    }
    // Strip one carriage return standing immediately before the line feed.
    let end = if i > start && stream.data[i - 1] == 13u8 {
        i - 1
    } else {
        i
    };
    // Accumulation buffer, sized by a capacity hint to avoid reallocation.
    let mut buf: Vec<u8> = Vec::with_capacity(if end - start < 4096 {
        4096
    } else {
        end - start
    });
    let mut j: usize = start;
    while j < end
        invariant
            stream == old(stream),
            stream.wf(),
            start <= j <= end <= data_len == stream.data@.len(),
            buf@ == stream.data@.subrange(start as int, j as int),
        decreases end - j,
    {
        let b = stream.data[j];
        buf.push(b);
        proof {
            assert(buf@ =~= stream.data@.subrange(start as int, j + 1));
        }
        j = j + 1;
    }
    proof {
        let raw = orig.take(lf_index(orig) as int);
        assert(raw =~= stream.data@.subrange(start as int, i as int));
        assert(line_content(orig) =~= stream.data@.subrange(start as int, end as int));
        assert(buf@ == line_content(orig));
    }
    stream.pos = i + 1;
    proof {
        assert(stream.remaining() =~= line_rest(orig));
    }
    match bytes_to_string(buf) {
        Some(s) => Ok(s),
        None => Err(HttpError::DecodingError),
    }
}

/// Take exactly `n` bytes from the front of the stream. When fewer are left,
/// the stream ended before the bytes it owed: the whole remainder is consumed
/// and the read fails with `ConnectionAborted`.
pub fn read_bytes(stream: &mut ByteStream, n: usize) -> (r: Result<Vec<u8>, HttpError>)
    requires
        old(stream).wf(),
    ensures
        final(stream).wf(),
        n <= old(stream).remaining().len()
            ==> (r matches Ok(b) && b@ == old(stream).remaining().take(n as int)
                && final(stream).remaining() == old(stream).remaining().skip(n as int)),
        n > old(stream).remaining().len()
            ==> (r matches Err(e) && e == HttpError::ConnectionAborted
                && final(stream).remaining().len() == 0),
{
    let ghost orig: Seq<u8> = stream.remaining();
    let avail = stream.data.len() - stream.pos;
    if n > avail {
        stream.pos = stream.data.len();
        proof {
            assert(stream.remaining().len() == 0);
        }
        return Err(HttpError::ConnectionAborted);
    }
    let start = stream.pos;
    let stop = start + n;
    let mut buf: Vec<u8> = Vec::with_capacity(n);
    let mut j: usize = start;
    while j < stop
        invariant
            stream == old(stream),
            stream.wf(),
            start == stream.pos,
            start <= j <= stop == start + n <= stream.data@.len(),
            buf@ == stream.data@.subrange(start as int, j as int),
        decreases stop - j,
    {
        let b = stream.data[j];
        buf.push(b);
        proof {
            assert(buf@ =~= stream.data@.subrange(start as int, j + 1));
        }
        j = j + 1;
    }
    stream.pos = start + n;
    proof {
        assert(buf@ =~= orig.take(n as int));
        assert(stream.remaining() =~= orig.skip(n as int));
    }
    Ok(buf)
}

/// Law: for every line `l` holding no line-feed byte, appending a line feed —
/// optionally preceded by a carriage return — and any further bytes makes the
/// line reader return exactly `l`, with exactly the further bytes left over.
/// Without the appended carriage return this asks that `l` itself not end in
/// one, since that byte would be stripped.
pub proof fn lemma_line_round_trip(l: Seq<u8>, with_cr: bool, rest: Seq<u8>)
    requires
        forall|j: int| 0 <= j < l.len() ==> l[j] != 10u8,
        valid_utf8(l),
        !with_cr ==> (l.len() == 0 || l[l.len() - 1] != 13u8),
    ensures
        ({
            let s = if with_cr {
                l + seq![13u8, 10u8] + rest
            } else {
                l + seq![10u8] + rest
            };
            &&& lf_index(s) < s.len()
            &&& line_content(s) == l
            &&& spec_read_line(s) == Ok::<Seq<char>, HttpError>(decode_utf8(l))
            &&& line_rest(s) == rest
        }),
{
    let s = if with_cr {
        l + seq![13u8, 10u8] + rest
    } else {
        l + seq![10u8] + rest
    };
    let k: int = if with_cr {
        l.len() as int + 1
    } else {
        l.len() as int
    };
    assert(s[k] == 10u8);
    lemma_lf_index(s);
    assert(lf_index(s) == k);
    if with_cr {
        assert(s.take(k) =~= l + seq![13u8]);
        assert((l + seq![13u8]).drop_last() =~= l);
    } else {
        assert(s.take(k) =~= l);
    }
    assert(line_content(s) == l);
    assert(line_rest(s) =~= rest);
}

/// Law: a stream holding no line-feed byte — the empty stream included —
/// makes the line reader fail with `ConnectionAborted`, never succeed with a
/// partial line.
pub proof fn lemma_no_line_feed_aborts(s: Seq<u8>)
    requires
        forall|j: int| 0 <= j < s.len() ==> s[j] != 10u8,
    ensures
        spec_read_line(s) == Err::<Seq<char>, HttpError>(HttpError::ConnectionAborted),
{
    lemma_lf_index(s);
}

} // verus!
