//! How the segments of a stream are spread over worker lanes, and when a
//! lane retries a segment or gives up on it.
use crate::reassembly::LaneMessage;
use crunchyroll_rs::media::VariantSegment;
use vstd::prelude::*;

verus! {

#[verifier::external_type_specification]
#[verifier::external_body]
pub struct ExVariantSegment(VariantSegment);

#[verifier::external_type_specification]
#[verifier::external_body]
pub struct ExCrunchyrollError(crunchyroll_rs::error::Error);

/// What `VariantSegment::decrypt` makes of these bytes with the segment's
/// key: the plaintext, or `None` where it reports an error.
pub uninterp spec fn decrypted_of(bytes: Seq<u8>, segment: VariantSegment) -> Option<Seq<u8>>;

/// Relies on crunchyroll-rs's `VariantSegment::decrypt` with the segment's
/// key: the result depends on the bytes and the key alone; without a key the
/// bytes come back as they are; with one, the plaintext is the buffer with
/// its padding removed, so never longer.
#[verifier::external_body]
fn decrypt_segment(bytes: Vec<u8>, segment: &VariantSegment) -> (r: Result<
    Vec<u8>,
    crunchyroll_rs::error::Error,
>)
    ensures
        r is Ok <==> decrypted_of(bytes@, *segment) is Some,
        r is Ok ==> r->Ok_0@ == decrypted_of(bytes@, *segment)->0,
        r is Ok ==> r->Ok_0@.len() <= bytes@.len(),
{
    let mut bytes = bytes;
    VariantSegment::decrypt(&mut bytes, segment.key.clone()).map(|b| b.to_vec())
}

/// Attempts allowed for one segment after the first has failed.
pub const MAX_RETRIES: u32 = 5;

/// Splits the indices `0..total` over `lanes` lanes: lane `l` gets the
/// indices `i` with `i % lanes == l`, in ascending order.
pub fn lane_assignment(total: u64, lanes: usize) -> (r: Vec<Vec<u64>>)
    requires
        lanes > 0,
    ensures
        r@.len() == lanes,
        forall|l: int, k: int|
            0 <= l < lanes && 0 <= k < r@[l]@.len() ==> #[trigger] r@[l]@[k] == l + k * lanes
                && r@[l]@[k] < total,
        forall|l: int| 0 <= l < lanes ==> l + (#[trigger] r@[l]@.len()) * lanes >= total,
        forall|i: u64|
            i < total ==> (i as int) / (lanes as int) < (#[trigger] r@[(i as int) % (
            lanes as int)])@.len() && r@[(i as int) % (lanes as int)]@[(i as int) / (
            lanes as int)] == i,
{
    let w = lanes as u64;
    let mut r: Vec<Vec<u64>> = Vec::new();
    let mut l: usize = 0;
    while l < lanes
        invariant
            l <= lanes,
            w == lanes,
            r@.len() == l,
            forall|a: int, k: int|
                0 <= a < l && 0 <= k < r@[a]@.len() ==> #[trigger] r@[a]@[k] == a + k * lanes
                    && r@[a]@[k] < total,
            forall|a: int| 0 <= a < l ==> a + (#[trigger] r@[a]@.len()) * lanes >= total,
        decreases lanes - l,
    {
        let mut v: Vec<u64> = Vec::new();
        let mut i: u64 = l as u64;
        assert(l + v@.len() * lanes == l) by (nonlinear_arith)
            requires v@.len() == 0;
        loop
            invariant_except_break
                i == l + v@.len() * lanes,
            invariant
                l < lanes,
                w == lanes,
                forall|k: int| 0 <= k < v@.len() ==> #[trigger] v@[k] == l + k * lanes && v@[k] < total,
            ensures
                l + v@.len() * lanes >= total,
                forall|k: int| 0 <= k < v@.len() ==> #[trigger] v@[k] == l + k * lanes && v@[k] < total,
            decreases total + lanes - i,
        {
            if i >= total {
                break;
            }
            let ghost pre = v@.len();
            v.push(i);
            proof {
                assert(l + v@.len() * lanes == i + lanes) by (nonlinear_arith)
                    requires v@.len() == pre + 1, i == l + pre * lanes;
            }
            match i.checked_add(w) {
                Some(x) => {
                    i = x;
                },
                None => {
                    break;
                },
            }
        }
        let ghost rows = r@;
        r.push(v);
        proof {
            assert forall|a: int, k: int|
                0 <= a < l + 1 && 0 <= k < r@[a]@.len() implies #[trigger] r@[a]@[k] == a + k * lanes
                    && r@[a]@[k] < total by {
                if a < l {
                    assert(rows[a] == r@[a]);
                }
            }
        }
        l = l + 1;
    }
    proof {
        assert forall|i: u64| i < total implies (i as int) / (lanes as int) < (#[trigger] r@[(
        i as int) % (lanes as int)])@.len() && r@[(i as int) % (lanes as int)]@[(i as int) / (
        lanes as int)] == i by {
            let a = (i as int) % (lanes as int);
            let k = (i as int) / (lanes as int);
            let n = r@[a]@.len();
            assert(i == a + k * lanes && 0 <= a < lanes && 0 <= k) by (nonlinear_arith)
                requires a == (i as int) % (lanes as int), k == (i as int) / (lanes as int), lanes > 0, i >= 0;
            assert(a + n * lanes >= total);
            assert(k < n) by (nonlinear_arith)
                requires a + n * lanes > a + k * lanes, lanes > 0;
        }
    }
    r
}

/// Why a segment could not be had.
pub enum FetchError {
    /// Every attempt failed in transport; `retries` attempts followed the first.
    RetriesExhausted { index: u64, retries: u32 },
    /// The segment arrived but could not be decrypted; this is never retried.
    Decrypt { index: u64 },
}

/// The retry bookkeeping of one segment.
pub struct SegmentFetch {
    index: u64,
    retries: u32,
}

impl SegmentFetch {
    pub closed spec fn spec_index(&self) -> u64 {
        self.index
    }

    pub closed spec fn spec_retries(&self) -> u32 {
        self.retries
    }

    pub open spec fn wf(&self) -> bool {
        self.spec_retries() <= MAX_RETRIES
    }

    /// The first attempt at the segment with this index.
    pub fn new(index: u64) -> (r: SegmentFetch)
        ensures
            r.spec_index() == index,
            r.spec_retries() == 0,
            r.wf(),
    {
        SegmentFetch { index, retries: 0 }
    }

    pub fn index(&self) -> (r: u64)
        ensures
            r == self.spec_index(),
    {
        self.index
    }

    pub fn retries(&self) -> (r: u32)
        ensures
            r == self.spec_retries(),
    {
        self.retries
    }

    /// An attempt failed in transport: either another attempt follows, or,
    /// once the retries are used up, the segment fails for good.
    pub fn transport_failed(&mut self) -> (r: Option<FetchError>)
        requires
            old(self).wf(),
        ensures
            final(self).wf(),
            final(self).spec_index() == old(self).spec_index(),
            old(self).spec_retries() < MAX_RETRIES ==> r is None && final(self).spec_retries()
                == old(self).spec_retries() + 1,
            old(self).spec_retries() == MAX_RETRIES ==> final(self).spec_retries()
                == MAX_RETRIES && r == Some(
                FetchError::RetriesExhausted { index: old(self).spec_index(), retries: MAX_RETRIES },
            ),
    {
        if self.retries == MAX_RETRIES {
            Some(FetchError::RetriesExhausted { index: self.index, retries: self.retries })
        } else {
            self.retries = self.retries + 1;
            None
        }
    }

    /// The fetched segment could not be decrypted: fatal at once.
    pub fn decrypt_failed(&self) -> (r: FetchError)
        ensures
            r == (FetchError::Decrypt { index: self.spec_index() }),
    {
        FetchError::Decrypt { index: self.index }
    }
}

/// The message for the consumer once a segment's decryption is known: its
/// plaintext under the segment's index, or a decryption failure, which is
/// fatal at once.
pub fn segment_message(fetch: &SegmentFetch, plain: Option<Vec<u8>>) -> (r: Result<
    LaneMessage,
    FetchError,
>)
    ensures
        match plain {
            Some(p) => r == Ok::<LaneMessage, FetchError>(
                LaneMessage::Segment { index: fetch.spec_index(), bytes: p },
            ),
            None => r == Err::<LaneMessage, FetchError>(
                FetchError::Decrypt { index: fetch.spec_index() },
            ),
        },
{
    match plain {
        Some(p) => Ok(LaneMessage::Segment { index: fetch.index(), bytes: p }),
        None => Err(fetch.decrypt_failed()),
    }
}

/// Decrypts a fetched segment into the message for the consumer; a
/// segment that cannot be decrypted fails at once, without a retry.
pub fn decrypted_segment(fetch: &SegmentFetch, bytes: Vec<u8>, segment: &VariantSegment) -> (r:
    Result<LaneMessage, FetchError>)
    ensures
        match decrypted_of(bytes@, *segment) {
            Some(p) => r is Ok && (r->Ok_0 matches LaneMessage::Segment { index, bytes: plain }
                && index == fetch.spec_index() && plain@ == p) && p.len() <= bytes@.len(),
            None => r == Err::<LaneMessage, FetchError>(
                FetchError::Decrypt { index: fetch.spec_index() },
            ),
        },
{
    let plain = match decrypt_segment(bytes, segment) {
        Ok(p) => Some(p),
        Err(_) => None,
    };
    segment_message(fetch, plain)
}

} // verus!
