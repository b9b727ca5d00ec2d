//! The minimal capsule shape: an exact byte copy with a report.
use vstd::prelude::*;

verus! {

#[derive(Debug, Clone, Copy)]
pub struct Options {
    pub buffer_size: usize,
}

impl Default for Options {
    fn default() -> (o: Self)
        ensures
            o.buffer_size == 65536,
    {
        Options { buffer_size: 65536 }
    }
}

#[derive(Debug, Clone, PartialEq, Eq)]
pub struct Report {
    pub bytes_read: u64,
    pub bytes_written: u64,
    pub strategy: &'static str,
    pub backend: &'static str,
    pub warnings: Vec<String>,
}

#[derive(Debug)]
pub enum Error {
    InvalidOptions(&'static str),
}

pub open spec fn valid_buffer(o: Options) -> bool {
    1 <= o.buffer_size <= 16 * 1024 * 1024
}

/// Copies `input` to the end of `output` in chunks of `buffer_size` bytes.
pub fn convert(input: &[u8], output: &mut Vec<u8>, options: &Options) -> (result: Result<
    Report,
    Error,
>)
    ensures
        result is Ok <==> valid_buffer(*options),
        result is Err ==> final(output)@ == old(output)@,
        result is Ok ==> final(output)@ == old(output)@ + input@,
        result matches Ok(r) ==> r.bytes_read == input@.len() && r.bytes_written == input@.len()
            && r.warnings@.len() == 0 && r.strategy == "exact" && r.backend == "native",
        result matches Err(e) ==> e is InvalidOptions,
{
    let buffer_size = options.buffer_size;
    if buffer_size == 0 {
        return Err(Error::InvalidOptions("buffer_size must be greater than zero"));
    }
    if buffer_size > 16 * 1024 * 1024 {
        return Err(Error::InvalidOptions("buffer_size exceeds 16 MiB"));
    }
    let mut total: usize = 0;
    while total < input.len()
        invariant
            total <= input@.len(),
            buffer_size >= 1,
            output@ == old(output)@ + input@.subrange(0, total as int),
        decreases input@.len() - total,
    {
        let count = if input.len() - total < buffer_size {
            input.len() - total
        } else {
            buffer_size
        };
        crate::bytes::push_range(output, input, total, count);
        total = total + count;
        assert(output@ =~= old(output)@ + input@.subrange(0, total as int));
    }
    assert(input@.subrange(0, total as int) =~= input@);
    Ok(
        Report {
            bytes_read: total as u64,
            bytes_written: total as u64,
            strategy: "exact",
            backend: "native",
            warnings: Vec::new(),
        },
    )
}

/// Runs the capsule on `input` and hands back the output bytes with the report.
pub fn invoke(input: &[u8], options: &Options) -> (result: Result<(Vec<u8>, Report), Error>)
    ensures
        result is Ok <==> valid_buffer(*options),
        result matches Ok((out, r)) ==> out@ == input@ && r.bytes_read == input@.len()
            && r.bytes_written == input@.len() && r.warnings@.len() == 0 && r.strategy == "exact"
            && r.backend == "native",
        result matches Err(e) ==> e is InvalidOptions,
{
    let mut output: Vec<u8> = Vec::new();
    match convert(input, &mut output, options) {
        Ok(report) => {
            assert(output@ =~= input@);
            Ok((output, report))
        },
        Err(e) => Err(e),
    }
}

} // verus!
