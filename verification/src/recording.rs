//! A sink that records what it is handed: the concrete `TextSink` the tests
//! drive, with optional fault injection and an optional mid-call charset
//! switch.

use vstd::prelude::*;

verus! {

use crate::encoding::{AsciiCompatibleEncoding, SharedEncoding};
use crate::text_decoder::{SinkError, SinkEvent, TextSink};

/// One accepted sink invocation, as plain values.
pub struct SinkRecord {
    pub text: String,
    pub last: bool,
    pub encoding: AsciiCompatibleEncoding,
}

pub open spec fn record_event(rec: SinkRecord) -> SinkEvent {
    SinkEvent { text: rec.text@, last: rec.last, encoding: rec.encoding }
}

/// Records every accepted chunk. If `fail_at` is set, the invocation with
/// that index is refused with `SinkError { code: 7 }` instead of recorded.
/// If `switch` is set, every invocation first stores that charset into the
/// given shared slot — exercising a charset switch from inside the sink.
pub struct RecordingSink {
    pub records: Vec<SinkRecord>,
    pub fail_at: Option<usize>,
    pub switch: Option<(SharedEncoding, AsciiCompatibleEncoding)>,
}

impl RecordingSink {
    pub fn new() -> (r: Self)
        ensures
            r.log() == Seq::<SinkEvent>::empty(),
    {
        let r = RecordingSink { records: Vec::new(), fail_at: None, switch: None };
        proof {
            assert(r.records@.map_values(|rec: SinkRecord| record_event(rec)) =~= Seq::<
                SinkEvent,
            >::empty());
        }
        r
    }
}

impl TextSink for RecordingSink {
    open spec fn log(&self) -> Seq<SinkEvent> {
        self.records@.map_values(|rec: SinkRecord| record_event(rec))
    }

    open spec fn accepting(&self) -> bool {
        self.fail_at is None
    }

    fn accept(&mut self, text: &str, last: bool, encoding: AsciiCompatibleEncoding) -> (r: Result<
        (),
        SinkError,
    >) {
        match &self.switch {
            Some(pair) => {
                pair.0.set(pair.1);
            },
            None => {},
        }
        match self.fail_at {
            Some(n) => {
                if self.records.len() == n {
                    return Err(SinkError { code: 7 });
                }
            },
            None => {},
        }
        let rec = SinkRecord { text: text.to_owned(), last, encoding };
        self.records.push(rec);
        proof {
            assert(self.records@.map_values(|rec: SinkRecord| record_event(rec)) =~= old(
                self,
            ).records@.map_values(|rec: SinkRecord| record_event(rec)).push(
                SinkEvent { text: text@, last, encoding },
            ));
        }
        Ok(())
    }
}

} // verus!
