//! Finding the next page in a stream of bytes that has lost its place.

use vstd::prelude::*;
use crate::page::{capture, check_spec, OggPage, OggPageBuf, OggPageCheckError, Recapture};

verus! {

/// Why no page could be taken from buffered bytes.
#[derive(Debug, Clone, Copy, PartialEq, Eq, Structural)]
pub enum PopError {
    /// More data is needed.
    MoreData,
    /// The bytes at hand are no page.
    OggPageError(OggPageCheckError),
}

/// The capture pattern lies at offset `at` of `bytes`.
pub open spec fn captured_at(bytes: Seq<u8>, at: int) -> bool {
    0 <= at && at + 4 <= bytes.len() && bytes.subrange(at, at + 4) == capture()
}

/// The last four of the first `n` bytes, with zeros before them if there
/// are fewer than four.
pub open spec fn window_at(bytes: Seq<u8>, n: int) -> Seq<u8> {
    Seq::new(
        4,
        |i: int|
            if n - 4 + i >= 0 {
                bytes[n - 4 + i]
            } else {
                0u8
            },
    )
}

/// The offset of the first capture pattern in `bytes`: how many bytes to
/// drop so that the rest begins with a page. `MoreData` if the bytes hold
/// no capture pattern.
pub fn resync(bytes: &[u8]) -> (r: Result<usize, PopError>)
    ensures
        match r {
            Ok(at) => captured_at(bytes@, at as int) && forall|i: int|
                0 <= i < at ==> !captured_at(bytes@, i),
            Err(e) => e == PopError::MoreData && forall|i: int| !captured_at(bytes@, i),
        },
{
    let mut recap = Recapture::new();
    let mut consumed: usize = 0;
    assert(recap.window() =~= window_at(bytes@, 0));
    while consumed < bytes.len()
        invariant
            consumed <= bytes@.len(),
            recap.window() == window_at(bytes@, consumed as int),
            forall|i: int| i + 4 <= consumed ==> !captured_at(bytes@, i),
        decreases bytes@.len() - consumed,
    {
        recap.push_byte(bytes[consumed]);
        consumed = consumed + 1;
        assert(recap.window() =~= window_at(bytes@, consumed as int));
        let found = recap.is_captured();
        proof {
            let window = window_at(bytes@, consumed as int);
            let pattern = capture();
            assert(pattern[0] == 0x4f && pattern[1] == 0x67 && pattern[2] == 0x67 && pattern[3]
                == 0x53);
            if consumed >= 4 {
                assert(window =~= bytes@.subrange(consumed - 4, consumed as int));
            } else {
                assert(window[0] == 0);
            }
        }
        if found {
            return Ok(consumed - 4);
        }
    }
    Err(PopError::MoreData)
}

/// Takes the page at the front of buffered bytes. `MoreData` if the bytes
/// end before the page does.
pub fn pop_page(bytes: &[u8]) -> (r: Result<OggPageBuf, PopError>)
    ensures
        match r {
            Ok(page) => check_spec(bytes@) == Ok::<nat, OggPageCheckError>(page@.len())
                && page@.len() <= bytes@.len() && page@ == bytes@.subrange(
                0,
                page@.len() as int,
            ) && page.wf(),
            Err(PopError::MoreData) => check_spec(bytes@) == Err::<nat, OggPageCheckError>(
                OggPageCheckError::TooShort,
            ),
            Err(PopError::OggPageError(e)) => e != OggPageCheckError::TooShort && check_spec(bytes@)
                == Err::<nat, OggPageCheckError>(e),
        },
{
    match OggPage::new(bytes) {
        Ok(page) => Ok(page.to_owned()),
        Err(OggPageCheckError::TooShort) => Err(PopError::MoreData),
        Err(e) => Err(PopError::OggPageError(e)),
    }
}

} // verus!
