//! Charset identifiers and the shared, concurrently switchable charset slot.

use vstd::prelude::*;

verus! {

use crate::codec::{
    decode_full, enc_ascii_compatible, encoding_is_ascii_compatible, encodings_equal, for_label_of,
    is_ascii_bytes, lookup_encoding, slot_load, slot_store, utf8_encoding,
};
use vstd::utf8::{decode_utf8, encode_utf8, valid_utf8};

/// How many charsets the registry of supported (ASCII-compatible) encodings
/// holds.
pub const REGISTRY_LEN: usize = 36;

/// The canonical name of the `i`-th registry member, as a character
/// sequence. The names double as labels that `Encoding::for_label` resolves.
/// Entry 0 is UTF-8.
pub open spec fn registry_label(i: int) -> Seq<char> {
    if i == 0 {
        "UTF-8"@
    } else if i == 1 {
        "Big5"@
    } else if i == 2 {
        "EUC-JP"@
    } else if i == 3 {
        "EUC-KR"@
    } else if i == 4 {
        "GBK"@
    } else if i == 5 {
        "IBM866"@
    } else if i == 6 {
        "ISO-8859-10"@
    } else if i == 7 {
        "ISO-8859-13"@
    } else if i == 8 {
        "ISO-8859-14"@
    } else if i == 9 {
        "ISO-8859-15"@
    } else if i == 10 {
        "ISO-8859-16"@
    } else if i == 11 {
        "ISO-8859-2"@
    } else if i == 12 {
        "ISO-8859-3"@
    } else if i == 13 {
        "ISO-8859-4"@
    } else if i == 14 {
        "ISO-8859-5"@
    } else if i == 15 {
        "ISO-8859-6"@
    } else if i == 16 {
        "ISO-8859-7"@
    } else if i == 17 {
        "ISO-8859-8"@
    } else if i == 18 {
        "ISO-8859-8-I"@
    } else if i == 19 {
        "KOI8-R"@
    } else if i == 20 {
        "KOI8-U"@
    } else if i == 21 {
        "Shift_JIS"@
    } else if i == 22 {
        "gb18030"@
    } else if i == 23 {
        "macintosh"@
    } else if i == 24 {
        "windows-1250"@
    } else if i == 25 {
        "windows-1251"@
    } else if i == 26 {
        "windows-1252"@
    } else if i == 27 {
        "windows-1253"@
    } else if i == 28 {
        "windows-1254"@
    } else if i == 29 {
        "windows-1255"@
    } else if i == 30 {
        "windows-1256"@
    } else if i == 31 {
        "windows-1257"@
    } else if i == 32 {
        "windows-1258"@
    } else if i == 33 {
        "windows-874"@
    } else if i == 34 {
        "x-mac-cyrillic"@
    } else {
        "x-user-defined"@
    }
}

/// The canonical name of the `i`-th registry member.
pub fn registry_name(i: usize) -> (r: &'static str)
    ensures
        r@ == registry_label(i as int),
{
    match i {
        0 => "UTF-8",
        1 => "Big5",
        2 => "EUC-JP",
        3 => "EUC-KR",
        4 => "GBK",
        5 => "IBM866",
        6 => "ISO-8859-10",
        7 => "ISO-8859-13",
        8 => "ISO-8859-14",
        9 => "ISO-8859-15",
        10 => "ISO-8859-16",
        11 => "ISO-8859-2",
        12 => "ISO-8859-3",
        13 => "ISO-8859-4",
        14 => "ISO-8859-5",
        15 => "ISO-8859-6",
        16 => "ISO-8859-7",
        17 => "ISO-8859-8",
        18 => "ISO-8859-8-I",
        19 => "KOI8-R",
        20 => "KOI8-U",
        21 => "Shift_JIS",
        22 => "gb18030",
        23 => "macintosh",
        24 => "windows-1250",
        25 => "windows-1251",
        26 => "windows-1252",
        27 => "windows-1253",
        28 => "windows-1254",
        29 => "windows-1255",
        30 => "windows-1256",
        31 => "windows-1257",
        32 => "windows-1258",
        33 => "windows-874",
        34 => "x-mac-cyrillic",
        _ => "x-user-defined",
    }
}

/// An identifier of one ASCII-compatible charset of the registry.
///
/// The restriction to ASCII-compatible charsets is established here, at
/// construction, and is what makes the decoder's zero-copy ASCII fast path
/// sound; it is not re-checked per call.
#[derive(Clone, Copy)]
pub struct AsciiCompatibleEncoding {
    pub raw: &'static encoding_rs::Encoding,
    pub index: usize,
    pub utf8: bool,
}

impl AsciiCompatibleEncoding {
    /// Validity: the charset is ASCII-compatible; `index` names exactly this
    /// charset in the registry (so storing the index and resolving it back
    /// cannot change the charset); decoding it obeys the ASCII-compatibility
    /// facts; and the `utf8` mark is carried only by the UTF-8 charset,
    /// whose decoder maps valid UTF-8 to exactly the text it encodes.
    pub open spec fn wf(self) -> bool {
        &&& enc_ascii_compatible(self.raw)
        &&& self.index < REGISTRY_LEN
        &&& for_label_of(encode_utf8(registry_label(self.index as int))) == Some(self.raw)
        &&& decode_full(self.raw, Seq::<u8>::empty()) == Seq::<char>::empty()
        &&& (forall|b: Seq<u8>|
            is_ascii_bytes(b) ==> #[trigger] decode_full(self.raw, b) == b.map_values(
                |x: u8| x as char,
            ))
        &&& (forall|a: Seq<u8>, b: Seq<u8>|
            is_ascii_bytes(a) ==> #[trigger] decode_full(self.raw, a + b) == a.map_values(
                |x: u8| x as char,
            ) + decode_full(self.raw, b))
        &&& (self.utf8 ==> (forall|b: Seq<u8>|
            valid_utf8(b) ==> #[trigger] decode_full(self.raw, b) == decode_utf8(b)))
        &&& (self.utf8 ==> (forall|a: Seq<u8>, b: Seq<u8>|
            valid_utf8(a) ==> #[trigger] decode_full(self.raw, a + b) == decode_utf8(a)
                + decode_full(self.raw, b)))
    }

    /// Wraps `encoding` if it is ASCII-compatible (and hence in the
    /// registry); refuses it otherwise — if and only if.
    pub fn new(encoding: &'static encoding_rs::Encoding) -> (r: Option<Self>)
        ensures
            r matches Some(a) ==> a.wf() && a.raw == encoding,
            r is Some <==> enc_ascii_compatible(encoding),
    {
        if !encoding_is_ascii_compatible(encoding) {
            return None;
        }
        let utf8 = encodings_equal(encoding, utf8_encoding());
        let mut i: usize = 0;
        while i < REGISTRY_LEN
            invariant
                i <= REGISTRY_LEN,
                enc_ascii_compatible(encoding),
                decode_full(encoding, Seq::<u8>::empty()) == Seq::<char>::empty(),
                forall|b: Seq<u8>|
                    is_ascii_bytes(b) ==> #[trigger] decode_full(encoding, b) == b.map_values(
                        |x: u8| x as char,
                    ),
                forall|a: Seq<u8>, b: Seq<u8>|
                    is_ascii_bytes(a) ==> #[trigger] decode_full(encoding, a + b) == a.map_values(
                        |x: u8| x as char,
                    ) + decode_full(encoding, b),
                utf8 ==> (forall|b: Seq<u8>|
                    valid_utf8(b) ==> #[trigger] decode_full(encoding, b) == decode_utf8(b)),
                utf8 ==> (forall|a: Seq<u8>, b: Seq<u8>|
                    valid_utf8(a) ==> #[trigger] decode_full(encoding, a + b) == decode_utf8(a)
                        + decode_full(encoding, b)),
                forall|j: int|
                    0 <= j < i ==> #[trigger] for_label_of(encode_utf8(registry_label(j)))
                        != Some(encoding),
            decreases REGISTRY_LEN - i,
        {
            let candidate = lookup_encoding(registry_name(i).as_bytes());
            match candidate {
                Some(c) => {
                    if encodings_equal(c, encoding) {
                        return Some(AsciiCompatibleEncoding { raw: encoding, index: i, utf8 });
                    }
                },
                None => {},
            }
            i = i + 1;
        }
        // The ASCII-compatible registry members are exactly those the label
        // table names, so an unmatched ASCII-compatible charset cannot
        // exist.
        proof {
            assert(false);
        }
        None
    }

    /// The UTF-8 charset.
    pub fn utf_8() -> (r: Self)
        ensures
            r.wf(),
            r.utf8,
    {
        let raw = utf8_encoding();
        let compatible = encoding_is_ascii_compatible(raw);
        proof {
            assert(compatible);
            assert(registry_label(0) == "UTF-8"@);
        }
        AsciiCompatibleEncoding { raw, index: 0, utf8: true }
    }
}

/// A charset slot shared between a decoder and whatever switches the charset
/// mid-stream: cloneable, readable and writable concurrently, with no lock.
/// The slot holds a registry index and is read and written in single atomic
/// steps, so a reader always observes some validly stored value, though — by
/// design — nothing relates a concurrent `get` to any particular `set`.
#[derive(Clone)]
pub struct SharedEncoding {
    pub slot: std::sync::Arc<std::sync::atomic::AtomicUsize>,
    pub initial: AsciiCompatibleEncoding,
}

impl SharedEncoding {
    pub open spec fn wf(self) -> bool {
        self.initial.wf()
    }

    /// Constructs a handle seeded with `encoding`.
    pub fn new(encoding: AsciiCompatibleEncoding) -> (r: Self)
        requires
            encoding.wf(),
        ensures
            r.wf(),
            r.initial == encoding,
    {
        let index = encoding.index;
        SharedEncoding {
            slot: std::sync::Arc::new(std::sync::atomic::AtomicUsize::new(index)),
            initial: encoding,
        }
    }

    /// Returns the charset the slot currently holds: the registry member the
    /// stored index names (its well-formedness says exactly that). Never
    /// blocks, never fails: a stored index that cannot be revalidated
    /// (unreachable by the slot's construction and `set`'s contract) falls
    /// back to the initial charset rather than propagating anywhere.
    pub fn get(&self) -> (r: AsciiCompatibleEncoding)
        requires
            self.wf(),
        ensures
            r.wf(),
    {
        let index = slot_load(&self.slot);
        if index < REGISTRY_LEN {
            match lookup_encoding(registry_name(index).as_bytes()) {
                Some(e) => {
                    if encoding_is_ascii_compatible(e) {
                        let utf8 = encodings_equal(e, utf8_encoding());
                        return AsciiCompatibleEncoding { raw: e, index, utf8 };
                    }
                },
                None => {},
            }
        }
        self.initial
    }

    /// Atomically replaces the stored charset. Never blocks, never fails.
    /// No validity is demanded of the argument: a sink switching the charset
    /// mid-call acts through `TextSink::accept`, which carries no
    /// preconditions, so this must be callable on any handle value; the
    /// slot's integrity is instead enforced at every `get`, which
    /// revalidates what it loads.
    pub fn set(&self, encoding: AsciiCompatibleEncoding) {
        slot_store(&self.slot, encoding.index);
    }
}

} // verus!
