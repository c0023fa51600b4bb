//! Framing of the outgoing request and de-framing of incoming messages.
use vstd::prelude::*;
use crate::error::Error;
use vstd::string::StringSliceAdditionalSpecFns;

verus! {

/// The capability announcement sent once per session, ahead of the request.
pub const GREETING: &'static str = "<hello xmlns=\"urn:ietf:params:xml:ns:netconf:base:1.0\">
  <capabilities>
    <capability>urn:ietf:params:netconf:base:1.1</capability>
  </capabilities>
</hello>
]]>]]>";

/// The decimal digits of `n`, most significant first, as ASCII bytes.
pub open spec fn decimal(n: nat) -> Seq<u8>
    decreases n,
{
    if n < 10 {
        seq![(48 + n) as u8]
    } else {
        decimal(n / 10).push((48 + n % 10) as u8)
    }
}

/// The bytes sent for a request `body`: the greeting, then the body in one
/// chunk (`\n#<length>\n<body>`), then the end-of-chunks line `\n##\n`.
pub open spec fn framed(body: Seq<u8>) -> Seq<u8> {
    GREETING.spec_bytes() + seq![10u8, 35u8] + decimal(body.len()) + seq![10u8] + body + seq![
        10u8,
        35u8,
        35u8,
        10u8,
    ]
}

/// The end-of-message marker `]]>]]>`.
pub open spec fn legacy_marker() -> Seq<u8> {
    seq![93u8, 93u8, 62u8, 93u8, 93u8, 62u8]
}

/// The end-of-chunks marker `##`.
pub open spec fn chunk_marker() -> Seq<u8> {
    seq![35u8, 35u8]
}

pub open spec fn ends_with(s: Seq<u8>, suffix: Seq<u8>) -> bool {
    suffix.len() <= s.len() && s.subrange(s.len() - suffix.len(), s.len() as int) == suffix
}

/// A message is complete once it ends with either marker.
pub open spec fn terminated(s: Seq<u8>) -> bool {
    ends_with(s, legacy_marker()) || ends_with(s, chunk_marker())
}

fn push_decimal(out: &mut Vec<u8>, n: usize)
    ensures
        final(out)@ == old(out)@ + decimal(n as nat),
    decreases n,
{
    if n >= 10 {
        push_decimal(out, n / 10);
    }
    out.push((48 + n % 10) as u8);
    assert(out@ =~= old(out)@ + decimal(n as nat));
}

fn push_all(out: &mut Vec<u8>, bytes: &[u8])
    ensures
        final(out)@ == old(out)@ + bytes@,
{
    let mut i: usize = 0;
    while i < bytes.len()
        invariant
            i <= bytes@.len(),
            out@ == old(out)@ + bytes@.take(i as int),
        decreases bytes.len() - i,
    {
        out.push(bytes[i]);
        assert(bytes@.take(i + 1) =~= bytes@.take(i as int).push(bytes@[i as int]));
        i = i + 1;
    }
    assert(bytes@.take(i as int) =~= bytes@);
}

/// The bytes to write for a request: the greeting and the chunk-framed body,
/// in one buffer.
pub fn frame_request(body: &str) -> (r: Vec<u8>)
    ensures
        r@ == framed(body.spec_bytes()),
{
    let bytes = body.as_bytes();
    let ghost b = body.spec_bytes();
    let mut out: Vec<u8> = Vec::new();
    push_all(&mut out, GREETING.as_bytes());
    assert(out@ =~= GREETING.spec_bytes());
    out.push(10u8);
    out.push(35u8);
    assert(out@ =~= GREETING.spec_bytes() + seq![10u8, 35u8]);
    push_decimal(&mut out, bytes.len());
    out.push(10u8);
    let ghost head = out@;
    assert(head =~= GREETING.spec_bytes() + seq![10u8, 35u8] + decimal(b.len()) + seq![10u8]);
    push_all(&mut out, bytes);
    out.push(10u8);
    out.push(35u8);
    out.push(35u8);
    out.push(10u8);
    assert(out@ =~= head + b + seq![10u8, 35u8, 35u8, 10u8]);
    assert(out@ =~= framed(b));
    out
}

/// Whether `buf` ends with one of the two message markers.
pub fn is_terminated(buf: &Vec<u8>) -> (r: bool)
    ensures
        r == terminated(buf@),
{
    let n = buf.len();
    let chunk = n >= 2 && buf[n - 2] == 35u8 && buf[n - 1] == 35u8;
    let legacy = n >= 6 && buf[n - 6] == 93u8 && buf[n - 5] == 93u8 && buf[n - 4] == 62u8
        && buf[n - 3] == 93u8 && buf[n - 2] == 93u8 && buf[n - 1] == 62u8;
    assert(chunk == ends_with(buf@, chunk_marker())) by {
        if n >= 2 {
            assert(chunk ==> buf@.subrange(n - 2, n as int) =~= chunk_marker());
            assert(buf@.subrange(n - 2, n as int) == chunk_marker() ==> buf@.subrange(
                n - 2,
                n as int,
            )[0] == 35u8 && buf@.subrange(n - 2, n as int)[1] == 35u8);
        }
    }
    assert(legacy == ends_with(buf@, legacy_marker())) by {
        if n >= 6 {
            let t = buf@.subrange(n - 6, n as int);
            assert(legacy ==> t =~= legacy_marker());
            assert(t == legacy_marker() ==> t[0] == 93u8 && t[1] == 93u8 && t[2] == 62u8
                && t[3] == 93u8 && t[4] == 93u8 && t[5] == 62u8);
        }
    }
    chunk || legacy
}

/// Accumulates the bytes of one incoming message until it ends with a marker.
pub struct FrameReader {
    buf: Vec<u8>,
}

impl View for FrameReader {
    type V = Seq<u8>;

    closed spec fn view(&self) -> Seq<u8> {
        self.buf@
    }
}

impl FrameReader {
    /// A reader that has accumulated nothing.
    pub fn new() -> (r: FrameReader)
        ensures
            r@ == Seq::<u8>::empty(),
    {
        FrameReader { buf: Vec::new() }
    }

    /// Whether the accumulated bytes end with a marker.
    pub fn is_complete(&self) -> (r: bool)
        ensures
            r == terminated(self@),
    {
        is_terminated(&self.buf)
    }

    /// Appends one byte; tells whether the message is now complete.
    pub fn push_byte(&mut self, b: u8) -> (done: bool)
        requires
            !terminated(old(self)@),
        ensures
            final(self)@ == old(self)@.push(b),
            done == terminated(final(self)@),
    {
        self.buf.push(b);
        is_terminated(&self.buf)
    }

    /// Appends bytes from `bytes` up to and including the first that
    /// completes the message, and gives how many it took: all of them where
    /// none completes it.
    pub fn push_bytes(&mut self, bytes: &[u8]) -> (used: usize)
        requires
            !terminated(old(self)@),
        ensures
            used <= bytes@.len(),
            final(self)@ == old(self)@ + bytes@.take(used as int),
            forall|k: int| 0 <= k < used ==> !terminated(#[trigger] (old(self)@ + bytes@.take(k))),
            terminated(final(self)@) || used == bytes@.len(),
    {
        let mut i: usize = 0;
        assert(old(self)@ + bytes@.take(0) =~= old(self)@);
        while i < bytes.len()
            invariant
                i <= bytes@.len(),
                self@ == old(self)@ + bytes@.take(i as int),
                !terminated(self@),
                forall|k: int| 0 <= k <= i ==> !terminated(#[trigger] (old(self)@ + bytes@.take(k))),
            decreases bytes.len() - i,
        {
            let done = self.push_byte(bytes[i]);
            assert(bytes@.take(i + 1) =~= bytes@.take(i as int).push(bytes@[i as int]));
            assert(self@ =~= old(self)@ + bytes@.take(i + 1));
            i = i + 1;
            if done {
                return i;
            }
        }
        i
    }

    /// The complete message, marker included; `IncompleteFrame` where the
    /// stream ended before a marker.
    pub fn finish(self) -> (r: Result<Vec<u8>, Error>)
        ensures
            match r {
                Ok(b) => terminated(self@) && b@ == self@,
                Err(e) => !terminated(self@) && e == Error::IncompleteFrame,
            },
    {
        if is_terminated(&self.buf) {
            Ok(self.buf)
        } else {
            Err(Error::IncompleteFrame)
        }
    }
}

} // verus!
