use vstd::prelude::*;
use crate::config::PyinError;

verus! {

/// How the two ends of a centred signal are extended.
#[derive(Debug, Clone, Copy, PartialEq, Eq, Structural)]
pub enum PadMode {
    /// Fill with a fixed sample value.
    Constant(i16),
    /// Mirror the signal about its first and last samples.
    Reflect,
}

/// Where frames are taken.
#[derive(Debug, Clone, Copy, PartialEq, Eq, Structural)]
pub enum Framing {
    /// Pad by half a frame at each end, so that frame `i` is centred on sample `i * hop`.
    Center(PadMode),
    /// Take only frames that lie wholly inside the signal.
    Valid,
}

/// The sample at position `j` of the signal `x` padded by `pad` at each end.
pub open spec fn padded_at(x: Seq<i16>, pad: int, mode: PadMode, j: int) -> i16 {
    let n = x.len() as int;
    if pad <= j < pad + n {
        x[j - pad]
    } else {
        match mode {
            PadMode::Constant(c) => c,
            PadMode::Reflect => if j < pad {
                x[pad - j]
            } else {
                x[n - 2 - (j - pad - n)]
            },
        }
    }
}

/// The signal that the frames are cut from.
pub open spec fn padded_spec(x: Seq<i16>, pad: int, mode: PadMode) -> Seq<i16> {
    Seq::new((x.len() + 2 * pad) as nat, |j: int| padded_at(x, pad, mode, j))
}

/// Whether padding by `pad` is defined for a signal of `n` samples.
pub open spec fn pad_ok(n: int, pad: int, mode: PadMode) -> bool {
    match mode {
        PadMode::Constant(_) => true,
        PadMode::Reflect => pad < n,
    }
}

/// Length of the signal that frames are cut from.
pub open spec fn framed_len(n: int, frame_length: int, framing: Framing) -> int {
    match framing {
        Framing::Center(_) => n + 2 * (frame_length / 2),
        Framing::Valid => n,
    }
}

/// Whether framing succeeds on a signal of `n` samples.
pub open spec fn framing_ok(n: int, frame_length: int, framing: Framing) -> bool {
    &&& frame_length <= framed_len(n, frame_length, framing)
    &&& match framing {
        Framing::Center(m) => pad_ok(n, frame_length / 2, m),
        Framing::Valid => true,
    }
}

/// Number of frames of `frame_length` samples at a hop of `hop` in a signal of `len` samples.
pub open spec fn frame_count_spec(len: int, frame_length: int, hop: int) -> int {
    1 + (len - frame_length) / hop
}

/// Pads `x` by `pad` samples at each end.
pub fn pad_signal(x: &Vec<i16>, pad: usize, mode: PadMode) -> (r: Vec<i16>)
    requires
        pad_ok(x@.len() as int, pad as int, mode),
        x@.len() + 2 * pad <= usize::MAX,
    ensures
        r@ == padded_spec(x@, pad as int, mode),
{
    let n = x.len();
    let total: usize = n + 2 * pad;
    let mut r: Vec<i16> = Vec::with_capacity(total);
    let mut j: usize = 0;
    while j < total
        invariant
            total == n + 2 * pad,
            n == x@.len(),
            pad_ok(n as int, pad as int, mode),
            j <= total,
            r@.len() == j,
            forall|k: int| 0 <= k < j ==> r@[k] == padded_at(x@, pad as int, mode, k),
        decreases total - j,
    {
        let v: i16 = if pad <= j && j < pad + n {
            x[j - pad]
        } else {
            match mode {
                PadMode::Constant(c) => c,
                PadMode::Reflect => if j < pad {
                    x[pad - j]
                } else {
                    x[n - 2 - (j - pad - n)]
                },
            }
        };
        r.push(v);
        j += 1;
    }
    assert(r@ =~= padded_spec(x@, pad as int, mode));
    r
}

/// Number of frames that `framing` yields from `n` samples, or
/// `InvalidInputShape` where it yields none or the padding is undefined.
pub fn frame_count(n: usize, frame_length: usize, hop: usize, framing: Framing) -> (r: Result<
    usize,
    PyinError,
>)
    requires
        0 < hop,
        0 < frame_length <= 65536,
        n + 65536 <= usize::MAX,
    ensures
        r is Ok <==> framing_ok(n as int, frame_length as int, framing),
        r matches Ok(c) ==> c == frame_count_spec(
            framed_len(n as int, frame_length as int, framing),
            frame_length as int,
            hop as int,
        ) && c >= 1,
        r is Err ==> r == Err::<usize, PyinError>(PyinError::InvalidInputShape),
{
    let len: usize = match framing {
        Framing::Center(m) => {
            let pad = frame_length / 2;
            if let PadMode::Reflect = m {
                if pad >= n {
                    return Err(PyinError::InvalidInputShape);
                }
            }
            n + 2 * pad
        },
        Framing::Valid => n,
    };
    if frame_length > len {
        return Err(PyinError::InvalidInputShape);
    }
    Ok(1 + (len - frame_length) / hop)
}

} // verus!
