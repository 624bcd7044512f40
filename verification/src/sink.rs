//! The sink capability: where encoded aggregated messages are delivered.
//! Every sink carries a ghost log of its publishes, so callers can state
//! exactly what was handed downstream.

use vstd::prelude::*;

verus! {

/// A destination for encoded aggregated messages. `log()` is the ghost
/// history of publishes, oldest first; `sink` appends exactly one entry.
/// A sink that keeps no history may leave `log` at its default.
pub trait RecordSink: Sized {
    open spec fn log(&self) -> Seq<(Seq<char>, Seq<u8>)> {
        Seq::empty()
    }

    /// Deliver one encoded message to the named destination stream.
    fn sink(&mut self, stream_arn: String, encoded_data: Vec<u8>)
        ensures
            final(self).log() == old(self).log().push((stream_arn@, encoded_data@)),
    ;
}

/// Relies on `std::io::Write::write_all` on standard output: emits one
/// diagnostic line. No result is observed.
#[verifier::external_body]
fn console_write_line(stream_arn: &String, data: &Vec<u8>) {
    let line = format!("Dumped records: {:?} to {}\n", data, stream_arn);
    let _ = std::io::Write::write_all(&mut std::io::stdout(), line.as_bytes());
}

/// A diagnostic sink that writes each message to the console.
pub struct ConsoleSink {
    history: Ghost<Seq<(Seq<char>, Seq<u8>)>>,
}

impl ConsoleSink {
    pub fn new() -> (r: Self)
        ensures
            r.log() == Seq::<(Seq<char>, Seq<u8>)>::empty(),
    {
        ConsoleSink { history: Ghost(Seq::empty()) }
    }
}

impl RecordSink for ConsoleSink {
    closed spec fn log(&self) -> Seq<(Seq<char>, Seq<u8>)> {
        self.history@
    }

    fn sink(&mut self, stream_arn: String, encoded_data: Vec<u8>) {
        console_write_line(&stream_arn, &encoded_data);
        self.history = Ghost(self.history@.push((stream_arn@, encoded_data@)));
    }
}

/// A capturing sink for tests: accumulates the delivered bytes for each
/// destination, in order of first delivery.
pub struct MockSink {
    pub captured_output: Vec<(String, Vec<u8>)>,
    history: Ghost<Seq<(Seq<char>, Seq<u8>)>>,
}

/// What the capture holds, as a sequence of (destination, bytes) pairs.
pub open spec fn captured_view(c: Seq<(String, Vec<u8>)>) -> Seq<(Seq<char>, Seq<u8>)> {
    c.map_values(|p: (String, Vec<u8>)| (p.0@, p.1@))
}

impl MockSink {
    /// What the capture holds, as (destination, accumulated bytes) pairs.
    pub closed spec fn captured(&self) -> Seq<(Seq<char>, Seq<u8>)> {
        captured_view(self.captured_output@)
    }

    pub fn new() -> (r: Self)
        ensures
            r.log() == Seq::<(Seq<char>, Seq<u8>)>::empty(),
            r.captured().len() == 0,
    {
        MockSink { captured_output: Vec::new(), history: Ghost(Seq::empty()) }
    }

    /// Appends `data` to the bytes captured for `stream_arn` (at the first
    /// entry with that destination), creating the entry on first delivery.
    fn capture(&mut self, stream_arn: String, data: Vec<u8>)
        ensures
            final(self).history == old(self).history,
            ({
                let c0 = captured_view(old(self).captured_output@);
                let c1 = captured_view(final(self).captured_output@);
                if (exists|i: int| 0 <= i < c0.len() && (#[trigger] c0[i]).0 == stream_arn@) {
                    exists|i: int|
                        {
                            &&& 0 <= i < c0.len()
                            &&& (#[trigger] c0[i]).0 == stream_arn@
                            &&& (forall|j: int| 0 <= j < i ==> c0[j].0 != stream_arn@)
                            &&& c1 == c0.update(i, (stream_arn@, c0[i].1 + data@))
                        }
                } else {
                    c1 == c0.push((stream_arn@, data@))
                }
            }),
    {
        let ghost c0 = captured_view(self.captured_output@);
        let mut i: usize = 0;
        while i < self.captured_output.len()
            invariant
                i <= self.captured_output.len(),
                forall|j: int| 0 <= j < i ==> captured_view(self.captured_output@)[j].0
                    != stream_arn@,
                captured_view(self.captured_output@) == c0,
                c0 == captured_view(old(self).captured_output@),
                self.history == old(self).history,
                self.captured_output@.len() == c0.len(),
            decreases self.captured_output.len() - i,
        {
            if self.captured_output[i].0 == stream_arn {
                let (name, mut bytes) = self.captured_output.remove(i);
                let ghost b0 = bytes@;
                bytes.extend_from_slice(data.as_slice());
                proof {
                    assert(bytes@ =~= b0 + data@);
                }
                self.captured_output.insert(i, (name, bytes));
                proof {
                    let c1 = captured_view(self.captured_output@);
                    assert(c0[i as int].0 == stream_arn@);
                    assert(c1 =~= c0.update(i as int, (stream_arn@, c0[i as int].1 + data@)));
                    let iw = i as int;
                    assert({
                        &&& 0 <= iw < c0.len()
                        &&& (#[trigger] c0[iw]).0 == stream_arn@
                        &&& (forall|j: int| 0 <= j < iw ==> c0[j].0 != stream_arn@)
                        &&& c1 == c0.update(iw, (stream_arn@, c0[iw].1 + data@))
                    });
                }
                return ;
            }
            i += 1;
        }
        self.captured_output.push((stream_arn, data));
        proof {
            assert(captured_view(self.captured_output@) =~= c0.push((stream_arn@, data@)));
            assert(forall|j: int| 0 <= j < c0.len() ==> (#[trigger] c0[j]).0 != stream_arn@);
        }
    }
}

impl RecordSink for MockSink {
    closed spec fn log(&self) -> Seq<(Seq<char>, Seq<u8>)> {
        self.history@
    }

    /// Besides appending to the publish log, accumulates the bytes per
    /// destination: the first captured entry for `stream_arn` is extended
    /// by `encoded_data` and every other entry is unchanged; a destination
    /// seen for the first time is appended.
    fn sink(&mut self, stream_arn: String, encoded_data: Vec<u8>)
        ensures
            ({
                let c0 = old(self).captured();
                let c1 = final(self).captured();
                if (exists|i: int| 0 <= i < c0.len() && (#[trigger] c0[i]).0 == stream_arn@) {
                    exists|i: int|
                        {
                            &&& 0 <= i < c0.len()
                            &&& (#[trigger] c0[i]).0 == stream_arn@
                            &&& (forall|j: int| 0 <= j < i ==> c0[j].0 != stream_arn@)
                            &&& c1 == c0.update(i, (stream_arn@, c0[i].1 + encoded_data@))
                        }
                } else {
                    c1 == c0.push((stream_arn@, encoded_data@))
                }
            }),
    {
        let ghost name = stream_arn@;
        let ghost bytes = encoded_data@;
        self.capture(stream_arn, encoded_data);
        self.history = Ghost(self.history@.push((name, bytes)));
    }
}

} // verus!
