//! What is known of a decoded audio stream, and its one-line description.

use vstd::prelude::*;
use crate::text::{decimal, push_decimal};

verus! {

/// Properties of a decoded audio stream.
#[derive(Clone, Debug, Default)]
pub struct AudioInfo {
    pub path: String,
    pub codec: String,
    pub sample_rate: u32,
    pub channels: u16,
    pub bit_rate: i64,
}

/// `parts[0]`, `sep`, `parts[1]`, `sep`, ... : the parts joined by `sep`.
pub open spec fn join(parts: Seq<Seq<char>>, sep: Seq<char>) -> Seq<char>
    decreases parts.len(),
{
    if parts.len() == 0 {
        Seq::empty()
    } else if parts.len() == 1 {
        parts[0]
    } else {
        join(parts.drop_last(), sep) + sep + parts.last()
    }
}

/// The bit rate in kilobits per second, rounded to the nearest.
pub open spec fn kbps(bit_rate: int) -> int {
    (bit_rate + 500) / 1000
}

/// The parts of the description: the codec, then the bit rate, the sample
/// rate and the channel count, each only where it is known (positive).
pub open spec fn desc_parts(info: AudioInfo) -> Seq<Seq<char>> {
    seq![info.codec@] + (if info.bit_rate > 0 {
        seq![decimal(kbps(info.bit_rate as int) as nat) + " kbps"@]
    } else {
        Seq::empty()
    }) + (if info.sample_rate > 0 {
        seq![decimal(info.sample_rate as nat) + " Hz"@]
    } else {
        Seq::empty()
    }) + (if info.channels > 0 {
        seq![decimal(info.channels as nat) + " ch"@]
    } else {
        Seq::empty()
    })
}

/// The description: its parts joined by `, `.
pub open spec fn desc_text(info: AudioInfo) -> Seq<char> {
    join(desc_parts(info), ", "@)
}

proof fn lemma_join_push(parts: Seq<Seq<char>>, sep: Seq<char>, p: Seq<char>)
    requires
        parts.len() >= 1,
    ensures
        join(parts.push(p), sep) == join(parts, sep) + sep + p,
{
    assert(parts.push(p).drop_last() =~= parts);
}

/// The kilobit rate is the bit rate rounded to the nearest thousand, halves
/// rounded up.
pub proof fn lemma_kbps(bit_rate: int)
    requires
        bit_rate >= 0,
    ensures
        kbps(bit_rate) * 1000 - 500 <= bit_rate < kbps(bit_rate) * 1000 + 500,
{
}

/// Joining one part gives that part; joining one more part appends the
/// separator and the part.
pub proof fn lemma_join(parts: Seq<Seq<char>>, sep: Seq<char>, p: Seq<char>)
    ensures
        join(seq![p], sep) == p,
        parts.len() >= 1 ==> join(parts.push(p), sep) == join(parts, sep) + sep + p,
{
    if parts.len() >= 1 {
        lemma_join_push(parts, sep, p);
    }
}

proof fn lemma_join_maybe(parts: Seq<Seq<char>>, sep: Seq<char>, present: bool, p: Seq<char>)
    requires
        parts.len() >= 1,
    ensures
        join(if present { parts.push(p) } else { parts }, sep) == join(parts, sep) + if present {
            sep + p
        } else {
            Seq::empty()
        },
{
    if present {
        lemma_join_push(parts, sep, p);
        assert(join(parts, sep) + sep + p =~= join(parts, sep) + (sep + p));
    } else {
        assert(join(parts, sep) =~= join(parts, sep) + Seq::<char>::empty());
    }
}

/// The description is the codec, followed by `, ` and each known property
/// in the order bit rate, sample rate, channels.
#[verifier::rlimit(40)]
pub proof fn lemma_desc(info: AudioInfo)
    ensures
        desc_text(info) == info.codec@ + (if info.bit_rate > 0 {
            ", "@ + decimal(kbps(info.bit_rate as int) as nat) + " kbps"@
        } else {
            Seq::empty()
        }) + (if info.sample_rate > 0 {
            ", "@ + decimal(info.sample_rate as nat) + " Hz"@
        } else {
            Seq::empty()
        }) + (if info.channels > 0 {
            ", "@ + decimal(info.channels as nat) + " ch"@
        } else {
            Seq::empty()
        }),
{
    let sep = ", "@;
    let a = seq![info.codec@];
    let pb = decimal(kbps(info.bit_rate as int) as nat) + " kbps"@;
    let ps = decimal(info.sample_rate as nat) + " Hz"@;
    let pc = decimal(info.channels as nat) + " ch"@;
    let b = if info.bit_rate > 0 { a.push(pb) } else { a };
    let c = if info.sample_rate > 0 { b.push(ps) } else { b };
    let d = if info.channels > 0 { c.push(pc) } else { c };
    assert(desc_parts(info) == d) by {
        if info.bit_rate > 0 {
            if info.sample_rate > 0 {
                if info.channels > 0 {
                    assert(desc_parts(info) =~= d);
                } else {
                    assert(desc_parts(info) =~= d);
                }
            } else if info.channels > 0 {
                assert(desc_parts(info) =~= d);
            } else {
                assert(desc_parts(info) =~= d);
            }
        } else if info.sample_rate > 0 {
            if info.channels > 0 {
                assert(desc_parts(info) =~= d);
            } else {
                assert(desc_parts(info) =~= d);
            }
        } else if info.channels > 0 {
            assert(desc_parts(info) =~= d);
        } else {
            assert(desc_parts(info) =~= d);
        }
    }
    assert(join(a, sep) == info.codec@);
    lemma_join_maybe(a, sep, info.bit_rate > 0, pb);
    lemma_join_maybe(b, sep, info.sample_rate > 0, ps);
    lemma_join_maybe(c, sep, info.channels > 0, pc);
}

impl AudioInfo {
    /// A one-line description such as `mp3, 320 kbps, 44100 Hz, 2 ch`.
    pub fn desc(&self) -> (s: String)
        requires
            self.bit_rate <= i64::MAX - 500,
        ensures
            s@ == desc_text(*self),
    {
        let mut s = self.codec.clone();
        let ghost mut parts: Seq<Seq<char>> = seq![self.codec@];
        assert(s@ == join(parts, ", "@));
        if self.bit_rate > 0 {
            let ghost prev = s@;
            s.append(", ");
            let k = (self.bit_rate + 500) / 1000;
            push_decimal(&mut s, k as u64);
            s.append(" kbps");
            proof {
                let p = decimal(kbps(self.bit_rate as int) as nat) + " kbps"@;
                lemma_join_push(parts, ", "@, p);
                parts = parts.push(p);
                assert(s@ =~= prev + ", "@ + p);
            }
        }
        if self.sample_rate > 0 {
            let ghost prev = s@;
            s.append(", ");
            push_decimal(&mut s, self.sample_rate as u64);
            s.append(" Hz");
            proof {
                let p = decimal(self.sample_rate as nat) + " Hz"@;
                lemma_join_push(parts, ", "@, p);
                parts = parts.push(p);
                assert(s@ =~= prev + ", "@ + p);
            }
        }
        if self.channels > 0 {
            let ghost prev = s@;
            s.append(", ");
            push_decimal(&mut s, self.channels as u64);
            s.append(" ch");
            proof {
                let p = decimal(self.channels as nat) + " ch"@;
                lemma_join_push(parts, ", "@, p);
                parts = parts.push(p);
                assert(s@ =~= prev + ", "@ + p);
            }
        }
        assert(parts =~= desc_parts(*self));
        s
    }
}

} // verus!
