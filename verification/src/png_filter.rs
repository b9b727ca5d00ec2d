//! PNG scanline filters: the five predictors, filtering, unfiltering and the
//! adaptive-selection score.
use vstd::prelude::*;

verus! {

/// The Paeth predictor of `a` (left), `b` (above) and `c` (upper left).
pub open spec fn paeth_spec(a: int, b: int, c: int) -> int {
    let p = a + b - c;
    let pa = if p >= a { p - a } else { a - p };
    let pb = if p >= b { p - b } else { b - p };
    let pc = if p >= c { p - c } else { c - p };
    if pa <= pb && pa <= pc {
        a
    } else if pb <= pc {
        b
    } else {
        c
    }
}

/// The predictor of filter `kind` for byte `i` of `row`, with `prior` the
/// unfiltered row above and `bpp` bytes per complete pixel.
pub open spec fn predictor(kind: u8, row: Seq<u8>, prior: Seq<u8>, bpp: int, i: int) -> int {
    let left: int = if i >= bpp { row[i - bpp] as int } else { 0 };
    let up: int = prior[i] as int;
    let upper_left: int = if i >= bpp { prior[i - bpp] as int } else { 0 };
    if kind == 0 {
        0
    } else if kind == 1 {
        left
    } else if kind == 2 {
        up
    } else if kind == 3 {
        (left + up) / 2
    } else {
        paeth_spec(left, up, upper_left)
    }
}

/// `raw` filtered with filter `kind`.
pub open spec fn filtered(kind: u8, raw: Seq<u8>, prior: Seq<u8>, bpp: int) -> Seq<u8> {
    Seq::new(raw.len(), |i: int| ((raw[i] - predictor(kind, raw, prior, bpp, i)) % 256) as u8)
}

/// `row` is what unfiltering `f` with filter `kind` gives.
pub open spec fn unfilters(kind: u8, f: Seq<u8>, row: Seq<u8>, prior: Seq<u8>, bpp: int) -> bool {
    &&& row.len() == f.len()
    &&& forall|i: int|
        0 <= i < row.len() ==> #[trigger] row[i] == ((f[i] + predictor(kind, row, prior, bpp, i))
            % 256) as u8
}

pub fn paeth(a: u8, b: u8, c: u8) -> (r: u8)
    ensures
        r as int == paeth_spec(a as int, b as int, c as int),
{
    let p = a as i32 + b as i32 - c as i32;
    let pa = if p >= a as i32 { p - a as i32 } else { a as i32 - p };
    let pb = if p >= b as i32 { p - b as i32 } else { b as i32 - p };
    let pc = if p >= c as i32 { p - c as i32 } else { c as i32 - p };
    if pa <= pb && pa <= pc {
        a
    } else if pb <= pc {
        b
    } else {
        c
    }
}

fn predict(kind: u8, row: &Vec<u8>, prior: &[u8], bpp: usize, i: usize) -> (r: u8)
    requires
        i < row@.len(),
        i < prior@.len(),
        row@.len() == prior@.len(),
        bpp >= 1,
    ensures
        r as int == predictor(kind, row@, prior@, bpp as int, i as int),
{
    let left: u8 = if i >= bpp { row[i - bpp] } else { 0 };
    let up: u8 = prior[i];
    let upper_left: u8 = if i >= bpp { prior[i - bpp] } else { 0 };
    if kind == 0 {
        0
    } else if kind == 1 {
        left
    } else if kind == 2 {
        up
    } else if kind == 3 {
        ((left as u16 + up as u16) / 2) as u8
    } else {
        paeth(left, up, upper_left)
    }
}

/// Appends the filter byte `kind` and `raw` filtered with it.
pub fn apply_filter(kind: u8, raw: &Vec<u8>, prior: &[u8], bpp: usize, out: &mut Vec<u8>)
    requires
        raw@.len() == prior@.len(),
        bpp >= 1,
    ensures
        final(out)@ == old(out)@ + seq![kind] + filtered(kind, raw@, prior@, bpp as int),
{
    out.push(kind);
    let ghost base = out@;
    let mut i: usize = 0;
    while i < raw.len()
        invariant
            i <= raw@.len(),
            raw@.len() == prior@.len(),
            bpp >= 1,
            out@ == base + filtered(kind, raw@, prior@, bpp as int).subrange(0, i as int),
        decreases raw@.len() - i,
    {
        let p = predict(kind, raw, prior, bpp, i);
        out.push(raw[i].wrapping_sub(p));
        assert(out@ =~= base + filtered(kind, raw@, prior@, bpp as int).subrange(0, i + 1));
        i = i + 1;
    }
    assert(filtered(kind, raw@, prior@, bpp as int).subrange(0, i as int) =~= filtered(
        kind,
        raw@,
        prior@,
        bpp as int,
    ));
}

/// Undoes filter `kind` on `row` in place; kinds above 4 are refused.
pub fn unfilter(kind: u8, row: &mut Vec<u8>, prior: &[u8], bpp: usize) -> (r: Result<(), ()>)
    requires
        old(row)@.len() == prior@.len(),
        bpp >= 1,
    ensures
        r is Ok <==> kind <= 4,
        r is Err ==> final(row)@ == old(row)@,
        r is Ok ==> unfilters(kind, old(row)@, final(row)@, prior@, bpp as int),
{
    if kind > 4 {
        return Err(());
    }
    let ghost f = row@;
    let mut i: usize = 0;
    while i < row.len()
        invariant
            i <= row@.len(),
            row@.len() == f.len(),
            f.len() == prior@.len(),
            bpp >= 1,
            forall|j: int| i <= j < row@.len() ==> row@[j] == f[j],
            forall|j: int|
                0 <= j < i ==> #[trigger] row@[j] == ((f[j] + predictor(kind, row@, prior@, bpp as int, j))
                    % 256) as u8,
        decreases row@.len() - i,
    {
        let p = predict(kind, row, prior, bpp, i);
        let v = row[i].wrapping_add(p);
        let ghost before = row@;
        row.set(i, v);
        proof {
            assert forall|j: int| 0 <= j < i + 1 implies #[trigger] row@[j] == ((f[j] + predictor(
                kind,
                row@,
                prior@,
                bpp as int,
                j,
            )) % 256) as u8 by {
                assert(predictor(kind, row@, prior@, bpp as int, j) == predictor(
                    kind,
                    before,
                    prior@,
                    bpp as int,
                    j,
                ));
            }
        }
        i = i + 1;
    }
    Ok(())
}

/// Unfiltering undoes filtering: the only row that unfilters
/// `filtered(kind, raw, ..)` is `raw` itself.
pub proof fn lemma_unfilter_filter(kind: u8, raw: Seq<u8>, row: Seq<u8>, prior: Seq<u8>, bpp: int)
    requires
        bpp >= 1,
        raw.len() == prior.len(),
        unfilters(kind, filtered(kind, raw, prior, bpp), row, prior, bpp),
    ensures
        row == raw,
{
    let f = filtered(kind, raw, prior, bpp);
    assert forall|i: int| 0 <= i < raw.len() implies row[i] == raw[i] by {
        lemma_unfilter_prefix(kind, raw, row, prior, bpp, i);
    }
    assert(row =~= raw);
}

proof fn lemma_unfilter_prefix(kind: u8, raw: Seq<u8>, row: Seq<u8>, prior: Seq<u8>, bpp: int, i: int)
    requires
        bpp >= 1,
        raw.len() == prior.len(),
        0 <= i < raw.len(),
        unfilters(kind, filtered(kind, raw, prior, bpp), row, prior, bpp),
    ensures
        row[i] == raw[i],
    decreases i,
{
    if i >= bpp {
        lemma_unfilter_prefix(kind, raw, row, prior, bpp, i - bpp);
    }
    let f = filtered(kind, raw, prior, bpp);
    assert(predictor(kind, row, prior, bpp, i) == predictor(kind, raw, prior, bpp, i));
    let p = predictor(kind, raw, prior, bpp, i);
    assert(row[i] == ((f[i] + p) % 256) as u8);
    assert(0 <= p < 256) by {
        lemma_predictor_range(kind, raw, prior, bpp, i);
    }
    assert(((((raw[i] - p) % 256) as u8) + p) % 256 == raw[i] as int);
}

proof fn lemma_predictor_range(kind: u8, row: Seq<u8>, prior: Seq<u8>, bpp: int, i: int)
    requires
        0 <= i < row.len(),
        row.len() == prior.len(),
        bpp >= 1,
    ensures
        0 <= predictor(kind, row, prior, bpp, i) < 256,
{
}

/// The sum of the magnitudes of the filtered bytes read as signed values.
pub open spec fn score_of(s: Seq<u8>) -> int
    decreases s.len(),
{
    if s.len() == 0 {
        0
    } else {
        score_of(s.drop_last()) + if s.last() < 128 {
            s.last() as int
        } else {
            256 - s.last()
        }
    }
}

/// The adaptive-selection score of a filtered row (its filter byte excluded).
pub fn filter_score(filtered: &Vec<u8>) -> (r: u64)
    requires
        1 <= filtered@.len() <= 0x0100_0000_0000_0000,
    ensures
        r == score_of(filtered@.subrange(1, filtered@.len() as int)),
{
    let mut total: u64 = 0;
    let mut i: usize = 1;
    while i < filtered.len()
        invariant
            1 <= i <= filtered@.len(),
            total == score_of(filtered@.subrange(1, i as int)),
            total <= 128 * (i - 1),
            filtered@.len() <= 0x0100_0000_0000_0000,
        decreases filtered@.len() - i,
    {
        let v = filtered[i];
        let m: u64 = if v < 128 { v as u64 } else { 256 - v as u64 };
        assert(filtered@.subrange(1, i + 1).drop_last() =~= filtered@.subrange(1, i as int));
        total = total + m;
        i = i + 1;
    }
    total
}

} // verus!
