//! Disk-space preflight: the bytes the streams will take against the space
//! free where the temporary files and the output go.
use crate::text::{dec, push_char, push_decimal};
use vstd::prelude::*;

verus! {

/// Two free-space readings closer than this many bytes count as one
/// filesystem seen twice.
pub const SAME_FS_TOLERANCE: u64 = 10240;

/// A filesystem's size and free space, in bytes.
#[derive(Clone, Copy, Debug, PartialEq, Eq, Structural)]
pub struct FsStats {
    pub total: u64,
    pub available: u64,
}

/// The bytes a stream of `bandwidth` bits per second takes over segments of
/// the given lengths (whole seconds).
pub open spec fn stream_bytes(bandwidth: u64, lengths: Seq<u64>) -> int {
    (bandwidth / 8) as int * seq_sum(lengths)
}

pub open spec fn seq_sum(s: Seq<u64>) -> int
    decreases s.len(),
{
    if s.len() == 0 {
        0
    } else {
        seq_sum(s.drop_last()) + s.last()
    }
}

pub open spec fn capped(x: int) -> u64 {
    if x > u64::MAX {
        u64::MAX
    } else {
        x as u64
    }
}

/// The estimated size of one stream, capped at the largest `u64`.
pub fn estimate_stream_size(bandwidth: u64, lengths: &Vec<u64>) -> (r: u64)
    ensures
        r == capped(stream_bytes(bandwidth, lengths@)),
{
    let mut sum: u64 = 0;
    let mut over = false;
    let mut i: usize = 0;
    while i < lengths.len()
        invariant
            i <= lengths@.len(),
            !over ==> sum == seq_sum(lengths@.subrange(0, i as int)),
            over ==> seq_sum(lengths@.subrange(0, i as int)) > u64::MAX,
        decreases lengths@.len() - i,
    {
        assert(lengths@.subrange(0, i + 1).drop_last() =~= lengths@.subrange(0, i as int));
        proof {
            lemma_sum_nonneg(lengths@.subrange(0, i as int));
        }
        if !over {
            match sum.checked_add(lengths[i]) {
                Some(x) => {
                    sum = x;
                },
                None => {
                    over = true;
                },
            }
        }
        i = i + 1;
    }
    assert(lengths@.subrange(0, i as int) =~= lengths@);
    let b = bandwidth / 8;
    if over {
        if b == 0 {
            assert(stream_bytes(bandwidth, lengths@) == 0);
            0
        } else {
            assert(stream_bytes(bandwidth, lengths@) > u64::MAX) by (nonlinear_arith)
                requires b >= 1, seq_sum(lengths@) > u64::MAX, stream_bytes(bandwidth, lengths@) == b * seq_sum(lengths@);
            u64::MAX
        }
    } else {
        match b.checked_mul(sum) {
            Some(x) => x,
            None => u64::MAX,
        }
    }
}

proof fn lemma_sum_nonneg(s: Seq<u64>)
    ensures
        seq_sum(s) >= 0,
    decreases s.len(),
{
    if s.len() > 0 {
        lemma_sum_nonneg(s.drop_last());
    }
}

/// Adds two sizes, capping at the largest `u64`.
pub fn add_sizes(a: u64, b: u64) -> (r: u64)
    ensures
        r == capped(a + b),
{
    a.saturating_add(b)
}

/// Whether two readings come from the same filesystem: equal size, and free
/// space within the tolerance.
pub open spec fn same_filesystem(a: FsStats, b: FsStats) -> bool {
    a.total == b.total && (if a.available >= b.available {
        a.available - b.available
    } else {
        b.available - a.available
    }) < SAME_FS_TOLERANCE
}

pub fn is_same_filesystem(a: FsStats, b: FsStats) -> (r: bool)
    ensures
        r == same_filesystem(a, b),
{
    let diff = if a.available >= b.available {
        a.available - b.available
    } else {
        b.available - a.available
    };
    a.total == b.total && diff < SAME_FS_TOLERANCE
}

/// The space each check compares against: on one filesystem both copies
/// share it, and the threshold is twice the free space.
pub open spec fn effective_space(a: FsStats, same: bool) -> int {
    if same {
        2 * a.available
    } else {
        a.available as int
    }
}

/// What the preflight found: for the temporary directory and for the
/// destination, the bytes needed where the space falls short.
pub struct CapacityReport {
    pub temp_required: Option<u64>,
    pub destination_required: Option<u64>,
}

/// Compares the estimate against both filesystems. A special destination
/// (standard output, a device) is not checked.
pub fn preflight(
    required: u64,
    temp: FsStats,
    destination: FsStats,
    destination_is_special: bool,
) -> (r: CapacityReport)
    ensures
        ({
            let same = same_filesystem(temp, destination);
            &&& r.temp_required == if effective_space(temp, same) < required {
                Some(required)
            } else {
                None::<u64>
            }
            &&& r.destination_required == if !destination_is_special && effective_space(
                destination,
                same,
            ) < required {
                Some(required)
            } else {
                None::<u64>
            }
        }),
{
    let same = is_same_filesystem(temp, destination);
    let temp_short = if same {
        required > temp.available && required - temp.available > temp.available
    } else {
        temp.available < required
    };
    let dst_short = if same {
        required > destination.available && required - destination.available
            > destination.available
    } else {
        destination.available < required
    };
    CapacityReport {
        temp_required: if temp_short {
            Some(required)
        } else {
            None
        },
        destination_required: if !destination_is_special && dst_short {
            Some(required)
        } else {
            None
        },
    }
}

pub const MIB: u64 = 1048576;

pub const GIB: u64 = 1073741824;

/// Hundredths of a GiB, rounded to nearest (halves up).
pub open spec fn gib_hundredths(bytes: nat) -> nat {
    ((bytes * 100 + GIB / 2) / (GIB as int)) as nat
}

pub open spec fn two_places(n: nat) -> Seq<char> {
    seq![crate::text::digit_char(n / 10), crate::text::digit_char(n % 10)]
}

/// A size as people read it: whole MB (rounded up) below one GiB, GB with two
/// decimals from there on.
pub open spec fn size_text(bytes: nat) -> Seq<char> {
    if bytes < GIB {
        dec(((bytes + MIB - 1) / (MIB as int)) as nat) + "MB"@
    } else {
        let h = gib_hundredths(bytes);
        dec(h / 100) + seq!['.'] + two_places(h % 100) + "GB"@
    }
}

/// The text of a size.
pub fn format_size(bytes: u64) -> (r: String)
    ensures
        r@ == size_text(bytes as nat),
{
    let mut s = String::new();
    if bytes < GIB {
        let mb = bytes / MIB + if bytes % MIB == 0 {
            0
        } else {
            1
        };
        assert(mb == (bytes + MIB - 1) / (MIB as int)) by (nonlinear_arith)
            requires mb == bytes / MIB + if bytes % MIB == 0 { 0int } else { 1int }, bytes >= 0;
        push_decimal(&mut s, mb);
        s.append("MB");
    } else {
        let h = ((bytes as u128) * 100 + (GIB as u128) / 2) / (GIB as u128);
        assert(h == gib_hundredths(bytes as nat));
        assert(h <= u64::MAX) by (nonlinear_arith)
            requires h == ((bytes as int) * 100 + 536870912) / 1073741824, bytes <= u64::MAX;
        let h = h as u64;
        push_decimal(&mut s, h / 100);
        push_char(&mut s, '.');
        let t = h % 100;
        let mut d = String::new();
        push_decimal(&mut d, t / 10);
        push_decimal(&mut d, t % 10);
        s.append(d.as_str());
        s.append("GB");
    }
    assert(s@ =~= size_text(bytes as nat));
    s
}

} // verus!
