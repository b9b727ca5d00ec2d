//! GIF87a/GIF89a and Windows ICO/CUR primitives.
//!
//! GIF decoding covers global/local palettes, LZW, interlace, transparency,
//! frame timing and disposal methods 0..=3. ICO/CUR parsing validates the
//! complete directory and supports PNG members plus common uncompressed DIB
//! members (1/4/8/24/32 bpp). Encoding emits a small canonical subset:
//! exact-palette GIF and single-member PNG-backed ICO/CUR.
use vstd::prelude::*;

pub mod gif;
pub mod icon;

verus! {

#[derive(Debug, Clone, Copy, PartialEq, Eq, Structural)]
pub struct Pixel {
    pub r: u8,
    pub g: u8,
    pub b: u8,
    pub a: u8,
}

#[derive(Debug, Clone, PartialEq, Eq)]
pub struct Image {
    pub width: u32,
    pub height: u32,
    pub pixels: Vec<Pixel>,
}

#[derive(Debug, Clone, PartialEq, Eq)]
pub enum Error {
    Signature(&'static str),
    Truncated(&'static str),
    Invalid(&'static str),
    Unsupported(&'static str),
    Limit(&'static str),
    Overflow(&'static str),
}

/// The message of a native codec error.
pub open spec fn error_message(e: Error) -> Seq<char> {
    match e {
        Error::Signature(v) => "invalid "@ + v@ + " signature"@,
        Error::Truncated(v) => "truncated "@ + v@ + ""@,
        Error::Invalid(v) => "invalid "@ + v@ + ""@,
        Error::Unsupported(v) => "unsupported "@ + v@ + ""@,
        Error::Limit(v) => "resource limit exceeded: "@ + v@ + ""@,
        Error::Overflow(v) => "integer overflow while computing "@ + v@ + ""@,
    }
}

impl Error {
    /// The error's message.
    pub fn to_string(&self) -> (s: String)
        ensures
            s@ == error_message(*self),
    {
        let (prefix, detail, suffix): (&str, &str, &str) = match self {
            Error::Signature(v) => ("invalid ", *v, " signature"),
            Error::Truncated(v) => ("truncated ", *v, ""),
            Error::Invalid(v) => ("invalid ", *v, ""),
            Error::Unsupported(v) => ("unsupported ", *v, ""),
            Error::Limit(v) => ("resource limit exceeded: ", *v, ""),
            Error::Overflow(v) => ("integer overflow while computing ", *v, ""),
        };
        let mut s = String::from_str(prefix);
        s.append(detail);
        s.append(suffix);
        s
    }
}

/// The pixel count of a `width` by `height` image, within `max_pixels`.
pub fn checked_pixels(width: u32, height: u32, max_pixels: u64) -> (r: Result<usize, Error>)
    ensures
        r is Ok <==> (1 <= width && 1 <= height && width * height <= max_pixels && width * height
            <= usize::MAX),
        r matches Ok(n) ==> n == width * height,
        (width == 0 || height == 0) ==> r == Err::<usize, Error>(Error::Invalid("zero image dimension")),
        (1 <= width && 1 <= height && width * height > max_pixels) ==> r == Err::<usize, Error>(
            Error::Limit("pixel count"),
        ),
        (1 <= width && 1 <= height && width * height <= max_pixels && width * height > usize::MAX) ==> r
            == Err::<usize, Error>(Error::Overflow("pixel allocation")),
{
    if width == 0 || height == 0 {
        return Err(Error::Invalid("zero image dimension"));
    }
    assert(width as int * height as int <= 0xFFFF_FFFF * 0xFFFF_FFFF) by (nonlinear_arith)
        requires
            width <= 0xFFFF_FFFF,
            height <= 0xFFFF_FFFF,
    ;
    let count = width as u64 * height as u64;
    if count > max_pixels {
        return Err(Error::Limit("pixel count"));
    }
    if count > usize::MAX as u64 {
        return Err(Error::Overflow("pixel allocation"));
    }
    Ok(count as usize)
}

} // verus!
