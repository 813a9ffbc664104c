//! The cached `Date` header.

use vstd::prelude::*;

verus! {

/// Whether `line` is one header line: some text without line ends, then one
/// line end.
pub open spec fn is_header_line(line: Seq<u8>) -> bool {
    &&& line.len() > 2
    &&& line[line.len() - 2] == '\r' as u8
    &&& line[line.len() - 1] == '\n' as u8
    &&& forall|i: int|
        0 <= i < line.len() - 2 ==> line[i] != '\r' as u8 && #[trigger] line[i] != '\n' as u8
}

/// The `Date` header line that every response carries, rendered once and
/// reused until the clock moves on.
pub struct DateCache {
    header: Vec<u8>,
}

impl View for DateCache {
    type V = Seq<u8>;

    /// The bytes of the header line.
    closed spec fn view(&self) -> Seq<u8> {
        self.header@
    }
}

impl DateCache {
    #[verifier::type_invariant]
    spec fn holds_header_line(self) -> bool {
        is_header_line(self.header@)
    }

    /// A cache that holds the given header line; `None` where the bytes are
    /// not one header line.
    pub fn new(header: Vec<u8>) -> (cache: Option<Self>)
        ensures
            match cache {
                Some(date) => is_header_line(header@) && date@ == header@,
                None => !is_header_line(header@),
            },
    {
        let len: usize = header.len();
        if len <= 2 || header[len - 2] != '\r' as u8 || header[len - 1] != '\n' as u8 {
            return None;
        }
        let mut i: usize = 0;
        while i < len - 2
            invariant
                2 < len == header@.len(),
                i <= len - 2,
                forall|k: int|
                    0 <= k < i ==> header@[k] != '\r' as u8 && #[trigger] header@[k] != '\n' as u8,
            decreases len - i,
        {
            if header[i] == '\r' as u8 || header[i] == '\n' as u8 {
                return None;
            }
            i += 1;
        }
        Some(DateCache { header })
    }

    /// The cached header line.
    pub fn header_bytes(&self) -> (header: &[u8])
        ensures
            header@ == self@,
            is_header_line(header@),
    {
        proof {
            use_type_invariant(self);
        }
        self.header.as_slice()
    }
}

/// A header line ends with the one carriage return and the one line feed that
/// it holds, and it holds something before them.
pub proof fn law_header_line_ends_once(text: Seq<u8>, line: Seq<u8>)
    ensures
        text.len() > 0 && (forall|i: int|
            0 <= i < text.len() ==> #[trigger] text[i] != 13 && text[i] != 10) ==> is_header_line(
            text + seq![13u8, 10u8],
        ),
        is_header_line(line) ==> line.len() > 2 && line.skip(line.len() - 2) == seq![13u8, 10u8]
            && (forall|i: int|
            0 <= i < line.len() - 2 ==> #[trigger] line[i] != 13 && line[i] != 10),
{
    let whole = text + seq![13u8, 10u8];
    assert forall|i: int| 0 <= i < text.len() implies #[trigger] whole[i] == text[i] by {}
    if is_header_line(line) {
        assert(line.skip(line.len() - 2) =~= seq![13u8, 10u8]);
    }
}

} // verus!
