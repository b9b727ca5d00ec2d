//! Interleaved integer PCM sample rewriting shared by the audio capsules.
//!
//! Every byte-order and signedness conversion between PCM containers is a
//! per-sample rewrite: optionally reverse the sample's bytes, optionally flip
//! the sign bit held by one byte, and optionally keep only a prefix of the
//! rewritten bytes (narrowing a left-aligned container).
use vstd::prelude::*;

verus! {

/// How one stored sample is rewritten.
#[derive(Clone, Copy, Debug, PartialEq, Eq)]
pub struct SampleRewrite {
    /// Bytes per input sample.
    pub width: usize,
    /// Reverse the byte order of each sample.
    pub reverse: bool,
    /// Byte (after reversal) whose top bit is flipped; `width` or more means none.
    pub flip: usize,
    /// Bytes kept from the start of the rewritten sample.
    pub keep: usize,
}

impl SampleRewrite {
    pub open spec fn wf(self) -> bool {
        1 <= self.width <= 4 && 1 <= self.keep <= self.width
    }

    /// The rewritten form of one sample `s` of `self.width` bytes.
    pub open spec fn apply(self, s: Seq<u8>) -> Seq<u8> {
        Seq::new(
            self.keep as nat,
            |j: int|
                {
                    let b = if self.reverse {
                        s[self.width - 1 - j]
                    } else {
                        s[j]
                    };
                    if j == self.flip {
                        b ^ 0x80u8
                    } else {
                        b
                    }
                },
        )
    }

    /// The rewrite of the first `n` samples of `data`, concatenated.
    pub open spec fn map(self, data: Seq<u8>, n: nat) -> Seq<u8>
        decreases n,
    {
        if n == 0 {
            Seq::empty()
        } else {
            self.map(data, (n - 1) as nat) + self.apply(
                data.subrange((n - 1) * self.width, n * self.width),
            )
        }
    }

    /// The rewrite of every complete sample of `data`.
    pub open spec fn map_all(self, data: Seq<u8>) -> Seq<u8> {
        self.map(data, data.len() / self.width as nat)
    }
}

pub proof fn lemma_map_len(r: SampleRewrite, data: Seq<u8>, n: nat)
    requires
        r.wf(),
    ensures
        r.map(data, n).len() == n * r.keep,
    decreases n,
{
    if n > 0 {
        lemma_map_len(r, data, (n - 1) as nat);
        let w = r.width as int;
        let last = r.apply(data.subrange((n - 1) * w, n * w));
        assert(last.len() == r.keep);
        assert(r.map(data, n) == r.map(data, (n - 1) as nat) + last);
        assert(n * r.keep == (n - 1) * r.keep + r.keep) by (nonlinear_arith);
    } else {
        assert(n * r.keep == 0) by (nonlinear_arith)
            requires
                n == 0,
        ;
    }
}

/// Samples only depend on the bytes they cover.
pub proof fn lemma_map_prefix(r: SampleRewrite, a: Seq<u8>, b: Seq<u8>, n: nat)
    requires
        r.wf(),
        n * r.width <= a.len(),
        n * r.width <= b.len(),
        a.subrange(0, n * r.width) == b.subrange(0, n * r.width),
    ensures
        r.map(a, n) == r.map(b, n),
    decreases n,
{
    if n > 0 {
        let w = r.width as int;
        assert((n - 1) * w + w == n * w) by (nonlinear_arith);
        assert(0 <= (n - 1) * w) by (nonlinear_arith)
            requires
                n >= 1,
                w >= 1,
        ;
        assert(a.subrange(0, (n - 1) * w) =~= a.subrange(0, n * w).subrange(0, (n - 1) * w));
        assert(b.subrange(0, (n - 1) * w) =~= b.subrange(0, n * w).subrange(0, (n - 1) * w));
        lemma_map_prefix(r, a, b, (n - 1) as nat);
        assert(a.subrange((n - 1) * w, n * w) =~= a.subrange(0, n * w).subrange((n - 1) * w, n * w));
        assert(b.subrange((n - 1) * w, n * w) =~= b.subrange(0, n * w).subrange((n - 1) * w, n * w));
    }
}

/// Appends the rewrite of the sample at `data[start..start + r.width]`.
pub fn push_sample(out: &mut Vec<u8>, data: &[u8], start: usize, r: SampleRewrite)
    requires
        r.wf(),
        start + r.width <= data.len(),
    ensures
        final(out)@ == old(out)@ + r.apply(data@.subrange(start as int, start + r.width)),
{
    let ghost s = data@.subrange(start as int, start + r.width);
    let mut j: usize = 0;
    while j < r.keep
        invariant
            r.wf(),
            j <= r.keep,
            start + r.width <= data.len(),
            s == data@.subrange(start as int, start + r.width),
            out@ == old(out)@ + r.apply(s).subrange(0, j as int),
        decreases r.keep - j,
    {
        let b = if r.reverse {
            data[start + (r.width - 1 - j)]
        } else {
            data[start + j]
        };
        let b = if j == r.flip {
            b ^ 0x80u8
        } else {
            b
        };
        out.push(b);
        j = j + 1;
        assert(out@ =~= old(out)@ + r.apply(s).subrange(0, j as int));
    }
    assert(r.apply(s).subrange(0, r.keep as int) =~= r.apply(s));
}

/// Appends the rewrite of the `count` samples starting at `data[start]`.
pub fn push_samples(out: &mut Vec<u8>, data: &[u8], start: usize, count: usize, r: SampleRewrite)
    requires
        r.wf(),
        start + count * r.width <= data.len(),
    ensures
        final(out)@ == old(out)@ + r.map(
            data@.subrange(start as int, start + count * r.width),
            count as nat,
        ),
{
    let ghost seg = data@.subrange(start as int, start + count * r.width);
    let mut k: usize = 0;
    while k < count
        invariant
            r.wf(),
            k <= count,
            start + count * r.width <= data.len(),
            seg == data@.subrange(start as int, start + count * r.width),
            out@ == old(out)@ + r.map(seg, k as nat),
        decreases count - k,
    {
        assert(k * r.width + r.width <= count * r.width) by (nonlinear_arith)
            requires
                k < count,
        ;
        let at = start + k * r.width;
        push_sample(out, data, at, r);
        assert((k + 1) * r.width == k * r.width + r.width) by (nonlinear_arith);
        assert(data@.subrange(at as int, at + r.width) =~= seg.subrange(
            k * r.width as int,
            (k + 1) * r.width as int,
        ));
        k = k + 1;
    }
}

} // verus!
