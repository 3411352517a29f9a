//! MIDI decisions: choosing ports, reassembling inbound frames, and collecting a
//! dump until the device goes idle.
//!
//! The driver behind the ports delivers bytes in chunks of its own making
//! (Windows WinMM can split a SysEx across buffers); an [`Assembler`] puts
//! complete `F0…F7` frames together again. A [`Collector`] gathers the frames of
//! an answer and says how long to wait for the next one — uniform for single- and
//! multi-block dumps.

use vstd::prelude::*;
use vstd::string::*;

use crate::codec;
use crate::output::{self, add_print, Print, Shown};
use crate::text::{self, contains, lowercase, quoted};

verus! {

// === errors ===

/// How `std::time::Duration::from_millis` prints under the `{:?}` format.
pub uninterp spec fn duration_text(millis: u64) -> Seq<char>;

/// Formats `std::time::Duration::from_millis` with `{:?}`; the text is named.
#[verifier::external_body]
fn show_duration(millis: u64) -> (r: String)
    ensures
        r@ == duration_text(millis),
{
    format!("{:?}", std::time::Duration::from_millis(millis))
}

/// What can go wrong on the way to a device. The driver's own errors are carried
/// as their messages.
#[derive(Debug, Clone, PartialEq, Eq)]
pub enum MidiError {
    Open(String),
    PortNotFound { kind: &'static str, needle: String },
    Send(String),
    /// No reply within this many milliseconds.
    Timeout(u64),
}

impl MidiError {
    /// What the error reads as.
    pub open spec fn message_text(self) -> Seq<char> {
        match self {
            MidiError::Open(s) => "failed to open MIDI port: "@ + s@,
            MidiError::PortNotFound { kind, needle } => "no MIDI "@ + kind@ + " port matches "@ + text::quoted_text(
                needle@,
            ),
            MidiError::Send(s) => "MIDI send failed: "@ + s@,
            MidiError::Timeout(millis) => "timed out after "@ + duration_text(millis)
                + " waiting for a reply from the device"@,
        }
    }

    /// The error as a one-line message.
    pub fn message(&self) -> (r: String)
        ensures
            r@ == self.message_text(),
    {
        match self {
            MidiError::Open(s) => {
                let mut out = "failed to open MIDI port: ".to_owned();
                out.append(s.as_str());
                out
            },
            MidiError::PortNotFound { kind, needle } => {
                let mut out = "no MIDI ".to_owned();
                out.append(kind);
                out.append(" port matches ");
                out.append(quoted(needle.as_str()).as_str());
                out
            },
            MidiError::Send(s) => {
                let mut out = "MIDI send failed: ".to_owned();
                out.append(s.as_str());
                out
            },
            MidiError::Timeout(millis) => {
                let mut out = "timed out after ".to_owned();
                out.append(show_duration(*millis).as_str());
                out.append(" waiting for a reply from the device");
                out
            },
        }
    }
}

// === ports ===

/// The name of a port, where the driver gives one.
pub open spec fn port_name(name: Option<String>) -> Seq<char> {
    match name {
        Some(n) => n@,
        None => "<unknown>"@,
    }
}

/// The names of ports; one that the driver does not name is `<unknown>`.
pub fn port_names(names: Vec<Option<String>>) -> (r: Vec<String>)
    ensures
        r@.len() == names@.len(),
        forall|i: int| 0 <= i < r@.len() ==> (#[trigger] r@[i])@ == port_name(names@[i]),
{
    let mut out: Vec<String> = Vec::new();
    for name in it: names
        invariant
            it.seq() == names@,
            out@.len() == it.index(),
            forall|i: int| 0 <= i < it.index() ==> (#[trigger] out@[i])@ == port_name(names@[i]),
    {
        out.push(
            match name {
                Some(n) => n,
                None => "<unknown>".to_owned(),
            },
        );
    }
    out
}

/// One line for each port.
pub open spec fn port_lines(ports: Seq<Seq<char>>) -> Seq<Shown> {
    Seq::new(ports.len(), |i: int| Shown::Line("  - "@ + ports[i]))
}

/// The listing of input and output ports.
pub open spec fn port_listing(inputs: Seq<Seq<char>>, outputs: Seq<Seq<char>>) -> Seq<Shown> {
    seq![Shown::Line("Input ports:"@)] + port_lines(inputs) + seq![Shown::Line("\nOutput ports:"@)] + port_lines(outputs)
}

fn list_names(sink: &mut Vec<Print>, ports: &Vec<String>)
    ensures
        output::shown(final(sink)@) == output::shown(old(sink)@) + port_lines(text::texts(ports@)),
{
    let ghost start = output::shown(sink@);
    let ghost goal = port_lines(text::texts(ports@));
    let mut i: usize = 0;
    assert(start + goal.take(0) =~= start);
    while i < ports.len()
        invariant
            i <= ports@.len(),
            goal == port_lines(text::texts(ports@)),
            output::shown(sink@) == start + goal.take(i as int),
        decreases ports@.len() - i,
    {
        let mut line = "  - ".to_owned();
        line.append(ports[i].as_str());
        add_print(sink, Print::Line(line));
        assert(start + goal.take(i + 1) =~= (start + goal.take(i as int)).push(goal[i as int]));
        i += 1;
    }
    assert(goal.take(i as int) =~= goal);
}

/// List the available input and output ports (the `ports` command).
pub fn list_ports(sink: &mut Vec<Print>, inputs: &Vec<String>, outputs: &Vec<String>)
    ensures
        output::shown(final(sink)@) == output::shown(old(sink)@) + port_listing(
            text::texts(inputs@),
            text::texts(outputs@),
        ),
{
    let ghost start = output::shown(sink@);
    add_print(sink, Print::Line("Input ports:".to_owned()));
    list_names(sink, inputs);
    add_print(sink, Print::Line("\nOutput ports:".to_owned()));
    list_names(sink, outputs);
    assert(output::shown(sink@) =~= start + port_listing(text::texts(inputs@), text::texts(outputs@)));
}

/// A port's name contains `needle`, ignoring case. A port that the driver does
/// not name never does.
pub open spec fn port_matches(name: Option<String>, needle: Seq<char>) -> bool {
    name matches Some(n) && text::contains_text(text::lowercase_text(n@), text::lowercase_text(needle))
}

/// No port's name contains `needle`.
pub open spec fn no_port_matches(names: Seq<Option<String>>, needle: Seq<char>) -> bool {
    forall|j: int| 0 <= j < names.len() ==> !port_matches(#[trigger] names[j], needle)
}

/// Find the first port whose name contains `needle`, ignoring case.
pub fn find_port(names: &Vec<Option<String>>, needle: &str, kind: &'static str) -> (r: Result<usize, MidiError>)
    ensures
        match r {
            Ok(i) => {
                &&& i < names@.len()
                &&& port_matches(names@[i as int], needle@)
                &&& forall|j: int| 0 <= j < i ==> !port_matches(#[trigger] names@[j], needle@)
            },
            Err(e) => {
                &&& forall|j: int| 0 <= j < names@.len() ==> !port_matches(#[trigger] names@[j], needle@)
                &&& e matches MidiError::PortNotFound { kind: k, needle: n } && k == kind && n@ == needle@
            },
        },
        r is Err ==> no_port_matches(names@, needle@),
{
    let wanted = lowercase(needle);
    let mut i: usize = 0;
    while i < names.len()
        invariant
            i <= names@.len(),
            wanted@ == text::lowercase_text(needle@),
            forall|j: int| 0 <= j < i ==> !port_matches(#[trigger] names@[j], needle@),
        decreases names@.len() - i,
    {
        if let Some(name) = &names[i] {
            if contains(lowercase(name.as_str()).as_str(), wanted.as_str()) {
                return Ok(i);
            }
        }
        i += 1;
    }
    Err(MidiError::PortNotFound { kind, needle: needle.to_owned() })
}

// === inbound frames ===

/// What a chunk of bytes adds to a frame that may be open before it: the frames
/// completed in it, and the frame that is open at its end.
pub open spec fn resumed(open: Option<Seq<u8>>, msg: Seq<u8>) -> (Seq<Seq<u8>>, Option<Seq<u8>>)
    decreases msg.len(),
{
    if msg.len() == 0 {
        (seq![], open)
    } else {
        let (frames, so_far) = resumed(open, msg.drop_last());
        let b = msg.last();
        if b == codec::START {
            (frames, Some(seq![codec::START]))
        } else {
            match so_far {
                Some(buf) => if b == codec::END {
                    (frames.push(buf.push(b)), None)
                } else {
                    (frames, Some(buf.push(b)))
                },
                None => (frames, None),
            }
        }
    }
}

/// Puts `F0…F7` frames together from the chunks a driver delivers. Bytes outside
/// a frame (clock, active-sensing, channel messages) are dropped.
#[derive(Debug)]
pub struct Assembler {
    /// The frame that is open, from its start byte on; empty where none is.
    buf: Vec<u8>,
}

impl View for Assembler {
    type V = Option<Seq<u8>>;

    /// The frame that is open.
    closed spec fn view(&self) -> Option<Seq<u8>> {
        if self.buf@.len() == 0 {
            None
        } else {
            Some(self.buf@)
        }
    }
}

impl Assembler {
    pub fn new() -> (r: Assembler)
        ensures
            r@ is None,
    {
        Assembler { buf: Vec::new() }
    }

    /// Take one (possibly partial) chunk and give the frames it completes.
    pub fn reassemble(&mut self, msg: &[u8]) -> (r: Vec<Vec<u8>>)
        ensures
            codec::byte_seqs(r@) == resumed(old(self)@, msg@).0,
            final(self)@ == resumed(old(self)@, msg@).1,
    {
        let ghost open = self@;
        let mut out: Vec<Vec<u8>> = Vec::new();
        let mut i: usize = 0;
        assert(codec::byte_seqs(out@) =~= resumed(open, msg@.take(0)).0);
        while i < msg.len()
            invariant
                i <= msg@.len(),
                codec::byte_seqs(out@) == resumed(open, msg@.take(i as int)).0,
                self@ == resumed(open, msg@.take(i as int)).1,
            decreases msg@.len() - i,
        {
            assert(msg@.take(i + 1).drop_last() =~= msg@.take(i as int));
            let b: u8 = msg[i];
            if b == codec::START {
                self.buf = Vec::new();
                self.buf.push(b);
                assert(self.buf@ =~= seq![codec::START]);
            } else if self.buf.len() > 0 {
                self.buf.push(b);
                if b == codec::END {
                    let ghost before = codec::byte_seqs(out@);
                    let ghost frame = self.buf@;
                    let mut full: Vec<u8> = Vec::new();
                    std::mem::swap(&mut self.buf, &mut full);
                    out.push(full);
                    assert(codec::byte_seqs(out@) =~= before.push(frame));
                }
            }
            i += 1;
        }
        assert(msg@.take(i as int) =~= msg@);
        out
    }
}

// === collecting an answer ===

/// The later moment that is `wait` after `now`, on a clock that stops at its end.
pub open spec fn after(now: u64, wait: u64) -> u64 {
    if now + wait <= u64::MAX {
        (now + wait) as u64
    } else {
        u64::MAX
    }
}

fn later(now: u64, wait: u64) -> (r: u64)
    ensures
        r == after(now, wait),
{
    if wait <= u64::MAX - now {
        now + wait
    } else {
        u64::MAX
    }
}

/// Gathers the frames of an answer: it is complete once no frame arrives for the
/// settle time (after at least one arrives), or once the overall time elapses
/// with nothing at all. Moments and times are in one unit of the caller's choice.
#[derive(Debug)]
pub struct Collector {
    pub buf: Vec<u8>,
    pub deadline: u64,
}

impl Collector {
    /// Start collecting at `now`.
    pub fn new(now: u64, overall: u64) -> (r: Collector)
        ensures
            r.buf@ == Seq::<u8>::empty(),
            r.deadline == after(now, overall),
    {
        Collector { buf: Vec::new(), deadline: later(now, overall) }
    }

    /// How long to wait for the next frame; `None` once the answer is complete.
    pub fn wait(&self, now: u64) -> (r: Option<u64>)
        ensures
            r == (if self.deadline > now {
                Some((self.deadline - now) as u64)
            } else {
                None
            }),
    {
        if self.deadline > now {
            Some(self.deadline - now)
        } else {
            None
        }
    }

    /// Take a frame that arrived at `now`.
    pub fn frame(&mut self, frame: &[u8], now: u64, settle: u64)
        ensures
            final(self).buf@ == old(self).buf@ + frame@,
            final(self).deadline == after(now, settle),
    {
        let ghost start = self.buf@;
        let mut i: usize = 0;
        assert(start + frame@.take(0) =~= start);
        while i < frame.len()
            invariant
                i <= frame@.len(),
                self.buf@ == start + frame@.take(i as int),
            decreases frame@.len() - i,
        {
            self.buf.push(frame[i]);
            assert(start + frame@.take(i + 1) =~= (start + frame@.take(i as int)).push(frame@[i as int]));
            i += 1;
        }
        assert(frame@.take(i as int) =~= frame@);
        self.deadline = later(now, settle);
    }
}

/// The Universal Identity Request.
pub open spec fn identity_bytes() -> Seq<u8> {
    seq![0xF0u8, 0x7E, 0x7F, 0x06, 0x01, 0xF7]
}

/// The Universal Identity Request.
pub fn identity_request() -> (r: Vec<u8>)
    ensures
        r@ == identity_bytes(),
{
    let r: Vec<u8> = vec![0xF0, 0x7E, 0x7F, 0x06, 0x01, 0xF7];
    assert(r@ =~= identity_bytes());
    r
}

// === laws ===

/// From no open frame, chunks are read as a whole buffer is.
pub proof fn lemma_resumed_is_scanned(bytes: Seq<u8>)
    ensures
        resumed(None, bytes) == codec::scanned(bytes),
    decreases bytes.len(),
{
    if bytes.len() > 0 {
        lemma_resumed_is_scanned(bytes.drop_last());
    }
}

/// Where a stream is cut into chunks makes no difference: two chunks give the
/// frames, and leave open the frame, that they give as one.
pub proof fn lemma_chunks_join(open: Option<Seq<u8>>, a: Seq<u8>, b: Seq<u8>)
    ensures
        resumed(open, a + b).0 == resumed(open, a).0 + resumed(resumed(open, a).1, b).0,
        resumed(open, a + b).1 == resumed(resumed(open, a).1, b).1,
    decreases b.len(),
{
    if b.len() == 0 {
        assert(a + b =~= a);
        assert(resumed(open, a).0 + resumed(resumed(open, a).1, b).0 =~= resumed(open, a).0);
    } else {
        assert((a + b).drop_last() =~= a + b.drop_last());
        lemma_chunks_join(open, a, b.drop_last());
        assert(resumed(open, a + b).0 =~= resumed(open, a).0 + resumed(resumed(open, a).1, b).0);
    }
}

/// What chunks, taken one after the other, add to a frame that may be open before
/// them: the frames completed in them, and the frame that is open at their end.
pub open spec fn resumed_each(open: Option<Seq<u8>>, chunks: Seq<Seq<u8>>) -> (Seq<Seq<u8>>, Option<Seq<u8>>)
    decreases chunks.len(),
{
    if chunks.len() == 0 {
        (seq![], open)
    } else {
        let (frames, so_far) = resumed_each(open, chunks.drop_last());
        let (more, left) = resumed(so_far, chunks.last());
        (frames + more, left)
    }
}

proof fn lemma_all_chunks_join(open: Option<Seq<u8>>, chunks: Seq<Seq<u8>>)
    ensures
        resumed_each(open, chunks) == resumed(open, codec::concatenated(chunks)),
    decreases chunks.len(),
{
    if chunks.len() > 0 {
        lemma_all_chunks_join(open, chunks.drop_last());
        lemma_chunks_join(open, codec::concatenated(chunks.drop_last()), chunks.last());
    }
}

/// The frames that a stream gives, delivered in any chunks to a new assembler, are
/// the frames that splitting the whole stream gives.
pub proof fn lemma_chunked_stream(chunks: Seq<Seq<u8>>)
    ensures
        resumed_each(None, chunks).0 == codec::frames_of(codec::concatenated(chunks)),
{
    lemma_all_chunks_join(None, chunks);
    lemma_resumed_is_scanned(codec::concatenated(chunks));
}

/// The identity request is one complete frame, so it is sent as it is.
pub proof fn lemma_identity_is_one_frame()
    ensures
        codec::is_frame(identity_bytes()),
        codec::frames_of(identity_bytes()) == seq![identity_bytes()],
{
    let f = identity_bytes();
    codec::lemma_frame_appended(seq![], f);
    assert(Seq::<u8>::empty() + f =~= f);
    assert(codec::frames_of(f) =~= seq![f]);
}

}
