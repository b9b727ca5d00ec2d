//! The option pairs of adapter requests, turned into capsule options.
//!
//! Each capsule capability accepts a fixed set of option names; values are
//! spelled as the adapters' defaults spell them. Pairs are applied in order
//! and the first pair that fails decides the error.
use vstd::prelude::*;
use crate::option_text::{parse_flag, parse_unsigned};
use crate::protocol::{AdapterError, AdapterErrorKind};
use crate::text::{note, str_eq};

verus! {

/// The `(name, value)` pairs as text.
pub open spec fn pairs_text(pairs: Seq<(String, String)>) -> Seq<(Seq<char>, Seq<char>)> {
    pairs.map_values(|p: (String, String)| (p.0@, p.1@))
}

/// The pairs applied in order to `o` by `step`.
pub open spec fn fold_options<T>(
    o: T,
    pairs: Seq<(Seq<char>, Seq<char>)>,
    step: spec_fn(T, Seq<char>, Seq<char>) -> Result<T, Seq<char>>,
) -> Result<T, Seq<char>>
    decreases pairs.len(),
{
    if pairs.len() == 0 {
        Ok(o)
    } else {
        match fold_options(o, pairs.drop_last(), step) {
            Err(m) => Err(m),
            Ok(o2) => step(o2, pairs.last().0, pairs.last().1),
        }
    }
}

proof fn lemma_fold_err<T>(
    o: T,
    pairs: Seq<(Seq<char>, Seq<char>)>,
    step: spec_fn(T, Seq<char>, Seq<char>) -> Result<T, Seq<char>>,
    k: int,
)
    requires
        0 <= k <= pairs.len(),
        fold_options(o, pairs.take(k), step) is Err,
    ensures
        fold_options(o, pairs, step) == fold_options(o, pairs.take(k), step),
    decreases pairs.len() - k,
{
    if k < pairs.len() {
        assert(pairs.take(k + 1).drop_last() =~= pairs.take(k));
        lemma_fold_err(o, pairs, step, k + 1);
    } else {
        assert(pairs.take(k) =~= pairs);
    }
}

/// The effect of the option `n` = `v` on options for the wav-pcm-to-aiff capability.
pub open spec fn wav_pcm_to_aiff_option(o: crate::wav_pcm_to_aiff::Options, n: Seq<char>, v: Seq<char>) -> Result<crate::wav_pcm_to_aiff::Options, Seq<char>> {
    if n == "metadata"@ {
        if v == "common-text"@ {
            Ok(crate::wav_pcm_to_aiff::Options { metadata: crate::wav_pcm_to_aiff::MetadataPolicy::CommonText, ..o })
        } else if v == "discard"@ {
            Ok(crate::wav_pcm_to_aiff::Options { metadata: crate::wav_pcm_to_aiff::MetadataPolicy::Discard, ..o })
        } else {
            Err("metadata must be common-text or discard"@)
        }
    } else if n == "strict_header_consistency"@ {
        match crate::option_text::flag_text(v) {
            Some(b) => Ok(crate::wav_pcm_to_aiff::Options { strict_header_consistency: b, ..o }),
            None => Err("strict_header_consistency must be true or false"@),
        }
    } else if n == "buffer_size"@ {
        match crate::option_text::unsigned_at_most(v, usize::MAX as int) {
            Some(x) => Ok(crate::wav_pcm_to_aiff::Options { buffer_size: x as usize, ..o }),
            None => Err("buffer_size must be an unsigned integer"@),
        }
    } else if n == "max_metadata_bytes"@ {
        match crate::option_text::unsigned_at_most(v, u64::MAX as int) {
            Some(x) => Ok(crate::wav_pcm_to_aiff::Options { max_metadata_bytes: x as u64, ..o }),
            None => Err("max_metadata_bytes must be an unsigned integer"@),
        }
    } else if n == "max_channels"@ {
        match crate::option_text::unsigned_at_most(v, u16::MAX as int) {
            Some(x) => Ok(crate::wav_pcm_to_aiff::Options { max_channels: x as u16, ..o }),
            None => Err("max_channels must be an unsigned 16-bit integer"@),
        }
    } else {
        Err(crate::option_text::unknown_option(n))
    }
}

pub open spec fn wav_pcm_to_aiff_step() -> spec_fn(crate::wav_pcm_to_aiff::Options, Seq<char>, Seq<char>) -> Result<crate::wav_pcm_to_aiff::Options, Seq<char>> {
    |o: crate::wav_pcm_to_aiff::Options, n: Seq<char>, v: Seq<char>| wav_pcm_to_aiff_option(o, n, v)
}

pub open spec fn wav_pcm_to_aiff_defaults() -> crate::wav_pcm_to_aiff::Options {
    crate::wav_pcm_to_aiff::Options {
        metadata: crate::wav_pcm_to_aiff::MetadataPolicy::CommonText,
        strict_header_consistency: true,
        buffer_size: 65536,
        max_metadata_bytes: 1048576,
        max_channels: 256,
    }
}

fn apply_wav_pcm_to_aiff(o: &mut crate::wav_pcm_to_aiff::Options, n: &str, v: &str) -> (r: Result<(), String>)
    ensures
        match wav_pcm_to_aiff_option(*old(o), n@, v@) {
            Ok(o2) => r is Ok && *final(o) == o2,
            Err(m) => r matches Err(s) && s@ == m,
        },
{
    if str_eq(n, "metadata") {
        if str_eq(v, "common-text") {
            o.metadata = crate::wav_pcm_to_aiff::MetadataPolicy::CommonText;
        } else if str_eq(v, "discard") {
            o.metadata = crate::wav_pcm_to_aiff::MetadataPolicy::Discard;
        } else {
            return Err(note("metadata must be common-text or discard"));
        }
    } else if str_eq(n, "strict_header_consistency") {
        match parse_flag(v) {
            Some(b) => o.strict_header_consistency = b,
            None => return Err(note("strict_header_consistency must be true or false")),
        }
    } else if str_eq(n, "buffer_size") {
        match parse_unsigned(v, usize::MAX as u64) {
            Some(x) => o.buffer_size = x as usize,
            None => return Err(note("buffer_size must be an unsigned integer")),
        }
    } else if str_eq(n, "max_metadata_bytes") {
        match parse_unsigned(v, u64::MAX as u64) {
            Some(x) => o.max_metadata_bytes = x as u64,
            None => return Err(note("max_metadata_bytes must be an unsigned integer")),
        }
    } else if str_eq(n, "max_channels") {
        match parse_unsigned(v, u16::MAX as u64) {
            Some(x) => o.max_channels = x as u16,
            None => return Err(note("max_channels must be an unsigned 16-bit integer")),
        }
    } else {
        let mut s = String::from_str("unknown option ");
        s.append(n);
        return Err(s);
    }
    Ok(())
}

/// The options of a request for the wav-pcm-to-aiff capability, from its
/// `(name, value)` pairs in order; the first bad pair decides the error.
pub fn wav_pcm_to_aiff_options(capability_id: &str, pairs: &Vec<(String, String)>) -> (r: Result<crate::wav_pcm_to_aiff::Options, AdapterError>)
    ensures
        capability_id@ != "capability:wav-pcm-to-aiff/pcm-exact/native-portable"@ ==> (r matches Err(e) && e.kind
            == AdapterErrorKind::UnsupportedCapability && e.message@ == "unsupported capability "@ + capability_id@),
        capability_id@ == "capability:wav-pcm-to-aiff/pcm-exact/native-portable"@ ==> match fold_options(wav_pcm_to_aiff_defaults(), pairs_text(pairs@), wav_pcm_to_aiff_step()) {
            Ok(o) => r matches Ok(o2) && o2 == o,
            Err(m) => r matches Err(e) && e.kind == AdapterErrorKind::InvalidOptions && e.message@ == m,
        },
{
    if !str_eq(capability_id, "capability:wav-pcm-to-aiff/pcm-exact/native-portable") {
        let mut s = String::from_str("unsupported capability ");
        s.append(capability_id);
        return Err(AdapterError::new(AdapterErrorKind::UnsupportedCapability, s));
    }
    let mut o = crate::wav_pcm_to_aiff::Options::default();
    assert(o == wav_pcm_to_aiff_defaults());
    let ghost all = pairs_text(pairs@);
    let mut i: usize = 0;
    while i < pairs.len()
        invariant
            i <= pairs@.len(),
            all == pairs_text(pairs@),
            capability_id@ == "capability:wav-pcm-to-aiff/pcm-exact/native-portable"@,
            fold_options(wav_pcm_to_aiff_defaults(), all.take(i as int), wav_pcm_to_aiff_step()) == Ok::<crate::wav_pcm_to_aiff::Options, Seq<char>>(o),
        decreases pairs@.len() - i,
    {
        let pair = &pairs[i];
        assert(all[i as int] == (pair.0@, pair.1@));
        assert(all.take(i + 1).drop_last() =~= all.take(i as int));
        match apply_wav_pcm_to_aiff(&mut o, pair.0.as_str(), pair.1.as_str()) {
            Ok(()) => {},
            Err(m) => {
                proof { lemma_fold_err(wav_pcm_to_aiff_defaults(), all, wav_pcm_to_aiff_step(), i + 1); }
                return Err(AdapterError::new(AdapterErrorKind::InvalidOptions, m));
            },
        }
        i = i + 1;
    }
    assert(all.take(i as int) =~= all);
    Ok(o)
}

/// The effect of the option `n` = `v` on options for the aiff-pcm-to-wav-pcm capability.
pub open spec fn aiff_pcm_to_wav_pcm_option(o: crate::aiff_pcm_to_wav_pcm::Options, n: Seq<char>, v: Seq<char>) -> Result<crate::aiff_pcm_to_wav_pcm::Options, Seq<char>> {
    if n == "metadata"@ {
        if v == "common-text"@ {
            Ok(crate::aiff_pcm_to_wav_pcm::Options { metadata: crate::aiff_pcm_to_wav_pcm::MetadataPolicy::CommonText, ..o })
        } else if v == "discard"@ {
            Ok(crate::aiff_pcm_to_wav_pcm::Options { metadata: crate::aiff_pcm_to_wav_pcm::MetadataPolicy::Discard, ..o })
        } else {
            Err("metadata must be common-text or discard"@)
        }
    } else if n == "strict_header_consistency"@ {
        match crate::option_text::flag_text(v) {
            Some(b) => Ok(crate::aiff_pcm_to_wav_pcm::Options { strict_header_consistency: b, ..o }),
            None => Err("strict_header_consistency must be true or false"@),
        }
    } else if n == "buffer_size"@ {
        match crate::option_text::unsigned_at_most(v, usize::MAX as int) {
            Some(x) => Ok(crate::aiff_pcm_to_wav_pcm::Options { buffer_size: x as usize, ..o }),
            None => Err("buffer_size must be usize"@),
        }
    } else if n == "max_metadata_bytes"@ {
        match crate::option_text::unsigned_at_most(v, u64::MAX as int) {
            Some(x) => Ok(crate::aiff_pcm_to_wav_pcm::Options { max_metadata_bytes: x as u64, ..o }),
            None => Err("max_metadata_bytes must be u64"@),
        }
    } else if n == "max_channels"@ {
        match crate::option_text::unsigned_at_most(v, u16::MAX as int) {
            Some(x) => Ok(crate::aiff_pcm_to_wav_pcm::Options { max_channels: x as u16, ..o }),
            None => Err("max_channels must be u16"@),
        }
    } else {
        Err(crate::option_text::unknown_option(n))
    }
}

pub open spec fn aiff_pcm_to_wav_pcm_step() -> spec_fn(crate::aiff_pcm_to_wav_pcm::Options, Seq<char>, Seq<char>) -> Result<crate::aiff_pcm_to_wav_pcm::Options, Seq<char>> {
    |o: crate::aiff_pcm_to_wav_pcm::Options, n: Seq<char>, v: Seq<char>| aiff_pcm_to_wav_pcm_option(o, n, v)
}

pub open spec fn aiff_pcm_to_wav_pcm_defaults() -> crate::aiff_pcm_to_wav_pcm::Options {
    crate::aiff_pcm_to_wav_pcm::Options {
        metadata: crate::aiff_pcm_to_wav_pcm::MetadataPolicy::CommonText,
        strict_header_consistency: true,
        buffer_size: 65536,
        max_metadata_bytes: 1048576,
        max_channels: 256,
    }
}

fn apply_aiff_pcm_to_wav_pcm(o: &mut crate::aiff_pcm_to_wav_pcm::Options, n: &str, v: &str) -> (r: Result<(), String>)
    ensures
        match aiff_pcm_to_wav_pcm_option(*old(o), n@, v@) {
            Ok(o2) => r is Ok && *final(o) == o2,
            Err(m) => r matches Err(s) && s@ == m,
        },
{
    if str_eq(n, "metadata") {
        if str_eq(v, "common-text") {
            o.metadata = crate::aiff_pcm_to_wav_pcm::MetadataPolicy::CommonText;
        } else if str_eq(v, "discard") {
            o.metadata = crate::aiff_pcm_to_wav_pcm::MetadataPolicy::Discard;
        } else {
            return Err(note("metadata must be common-text or discard"));
        }
    } else if str_eq(n, "strict_header_consistency") {
        match parse_flag(v) {
            Some(b) => o.strict_header_consistency = b,
            None => return Err(note("strict_header_consistency must be true or false")),
        }
    } else if str_eq(n, "buffer_size") {
        match parse_unsigned(v, usize::MAX as u64) {
            Some(x) => o.buffer_size = x as usize,
            None => return Err(note("buffer_size must be usize")),
        }
    } else if str_eq(n, "max_metadata_bytes") {
        match parse_unsigned(v, u64::MAX as u64) {
            Some(x) => o.max_metadata_bytes = x as u64,
            None => return Err(note("max_metadata_bytes must be u64")),
        }
    } else if str_eq(n, "max_channels") {
        match parse_unsigned(v, u16::MAX as u64) {
            Some(x) => o.max_channels = x as u16,
            None => return Err(note("max_channels must be u16")),
        }
    } else {
        let mut s = String::from_str("unknown option ");
        s.append(n);
        return Err(s);
    }
    Ok(())
}

/// The options of a request for the aiff-pcm-to-wav-pcm capability, from its
/// `(name, value)` pairs in order; the first bad pair decides the error.
pub fn aiff_pcm_to_wav_pcm_options(capability_id: &str, pairs: &Vec<(String, String)>) -> (r: Result<crate::aiff_pcm_to_wav_pcm::Options, AdapterError>)
    ensures
        capability_id@ != "capability:aiff-pcm-to-wav-pcm/pcm-exact/native-portable"@ ==> (r matches Err(e) && e.kind
            == AdapterErrorKind::UnsupportedCapability && e.message@ == "unsupported capability"@),
        capability_id@ == "capability:aiff-pcm-to-wav-pcm/pcm-exact/native-portable"@ ==> match fold_options(aiff_pcm_to_wav_pcm_defaults(), pairs_text(pairs@), aiff_pcm_to_wav_pcm_step()) {
            Ok(o) => r matches Ok(o2) && o2 == o,
            Err(m) => r matches Err(e) && e.kind == AdapterErrorKind::InvalidOptions && e.message@ == m,
        },
{
    if !str_eq(capability_id, "capability:aiff-pcm-to-wav-pcm/pcm-exact/native-portable") {
        return Err(AdapterError::new(AdapterErrorKind::UnsupportedCapability, note("unsupported capability")));
    }
    let mut o = crate::aiff_pcm_to_wav_pcm::Options::default();
    assert(o == aiff_pcm_to_wav_pcm_defaults());
    let ghost all = pairs_text(pairs@);
    let mut i: usize = 0;
    while i < pairs.len()
        invariant
            i <= pairs@.len(),
            all == pairs_text(pairs@),
            capability_id@ == "capability:aiff-pcm-to-wav-pcm/pcm-exact/native-portable"@,
            fold_options(aiff_pcm_to_wav_pcm_defaults(), all.take(i as int), aiff_pcm_to_wav_pcm_step()) == Ok::<crate::aiff_pcm_to_wav_pcm::Options, Seq<char>>(o),
        decreases pairs@.len() - i,
    {
        let pair = &pairs[i];
        assert(all[i as int] == (pair.0@, pair.1@));
        assert(all.take(i + 1).drop_last() =~= all.take(i as int));
        match apply_aiff_pcm_to_wav_pcm(&mut o, pair.0.as_str(), pair.1.as_str()) {
            Ok(()) => {},
            Err(m) => {
                proof { lemma_fold_err(aiff_pcm_to_wav_pcm_defaults(), all, aiff_pcm_to_wav_pcm_step(), i + 1); }
                return Err(AdapterError::new(AdapterErrorKind::InvalidOptions, m));
            },
        }
        i = i + 1;
    }
    assert(all.take(i as int) =~= all);
    Ok(o)
}

/// The effect of the option `n` = `v` on options for the raw-pcm-to-wav-pcm capability.
pub open spec fn raw_pcm_to_wav_pcm_option(o: crate::raw_pcm_to_wav_pcm::Options, n: Seq<char>, v: Seq<char>) -> Result<crate::raw_pcm_to_wav_pcm::Options, Seq<char>> {
    if n == "channels"@ {
        match crate::option_text::unsigned_at_most(v, u16::MAX as int) {
            Some(x) => Ok(crate::raw_pcm_to_wav_pcm::Options { channels: x as u16, ..o }),
            None => Err("channels must be u16"@),
        }
    } else if n == "sample_rate"@ {
        match crate::option_text::unsigned_at_most(v, u32::MAX as int) {
            Some(x) => Ok(crate::raw_pcm_to_wav_pcm::Options { sample_rate: x as u32, ..o }),
            None => Err("sample_rate must be u32"@),
        }
    } else if n == "bits_per_sample"@ {
        match crate::option_text::unsigned_at_most(v, u16::MAX as int) {
            Some(x) => Ok(crate::raw_pcm_to_wav_pcm::Options { bits_per_sample: x as u16, ..o }),
            None => Err("bits_per_sample must be u16"@),
        }
    } else if n == "input_endianness"@ {
        if v == "little"@ {
            Ok(crate::raw_pcm_to_wav_pcm::Options { input_endianness: crate::raw_pcm_to_wav_pcm::Endianness::Little, ..o })
        } else if v == "big"@ {
            Ok(crate::raw_pcm_to_wav_pcm::Options { input_endianness: crate::raw_pcm_to_wav_pcm::Endianness::Big, ..o })
        } else {
            Err("input_endianness must be little or big"@)
        }
    } else if n == "input_encoding"@ {
        if v == "signed"@ {
            Ok(crate::raw_pcm_to_wav_pcm::Options { input_encoding: crate::raw_pcm_to_wav_pcm::IntegerEncoding::Signed, ..o })
        } else if v == "unsigned"@ {
            Ok(crate::raw_pcm_to_wav_pcm::Options { input_encoding: crate::raw_pcm_to_wav_pcm::IntegerEncoding::Unsigned, ..o })
        } else {
            Err("input_encoding must be signed or unsigned"@)
        }
    } else if n == "strict_frame_alignment"@ {
        match crate::option_text::flag_text(v) {
            Some(b) => Ok(crate::raw_pcm_to_wav_pcm::Options { strict_frame_alignment: b, ..o }),
            None => Err("strict_frame_alignment must be true or false"@),
        }
    } else if n == "buffer_size"@ {
        match crate::option_text::unsigned_at_most(v, usize::MAX as int) {
            Some(x) => Ok(crate::raw_pcm_to_wav_pcm::Options { buffer_size: x as usize, ..o }),
            None => Err("buffer_size must be usize"@),
        }
    } else if n == "max_channels"@ {
        match crate::option_text::unsigned_at_most(v, u16::MAX as int) {
            Some(x) => Ok(crate::raw_pcm_to_wav_pcm::Options { max_channels: x as u16, ..o }),
            None => Err("max_channels must be u16"@),
        }
    } else {
        Err(crate::option_text::unknown_option(n))
    }
}

pub open spec fn raw_pcm_to_wav_pcm_step() -> spec_fn(crate::raw_pcm_to_wav_pcm::Options, Seq<char>, Seq<char>) -> Result<crate::raw_pcm_to_wav_pcm::Options, Seq<char>> {
    |o: crate::raw_pcm_to_wav_pcm::Options, n: Seq<char>, v: Seq<char>| raw_pcm_to_wav_pcm_option(o, n, v)
}

pub open spec fn raw_pcm_to_wav_pcm_defaults() -> crate::raw_pcm_to_wav_pcm::Options {
    crate::raw_pcm_to_wav_pcm::Options {
        channels: 1,
        sample_rate: 44100,
        bits_per_sample: 16,
        input_endianness: crate::raw_pcm_to_wav_pcm::Endianness::Little,
        input_encoding: crate::raw_pcm_to_wav_pcm::IntegerEncoding::Signed,
        strict_frame_alignment: true,
        buffer_size: 65536,
        max_channels: 256,
    }
}

fn apply_raw_pcm_to_wav_pcm(o: &mut crate::raw_pcm_to_wav_pcm::Options, n: &str, v: &str) -> (r: Result<(), String>)
    ensures
        match raw_pcm_to_wav_pcm_option(*old(o), n@, v@) {
            Ok(o2) => r is Ok && *final(o) == o2,
            Err(m) => r matches Err(s) && s@ == m,
        },
{
    if str_eq(n, "channels") {
        match parse_unsigned(v, u16::MAX as u64) {
            Some(x) => o.channels = x as u16,
            None => return Err(note("channels must be u16")),
        }
    } else if str_eq(n, "sample_rate") {
        match parse_unsigned(v, u32::MAX as u64) {
            Some(x) => o.sample_rate = x as u32,
            None => return Err(note("sample_rate must be u32")),
        }
    } else if str_eq(n, "bits_per_sample") {
        match parse_unsigned(v, u16::MAX as u64) {
            Some(x) => o.bits_per_sample = x as u16,
            None => return Err(note("bits_per_sample must be u16")),
        }
    } else if str_eq(n, "input_endianness") {
        if str_eq(v, "little") {
            o.input_endianness = crate::raw_pcm_to_wav_pcm::Endianness::Little;
        } else if str_eq(v, "big") {
            o.input_endianness = crate::raw_pcm_to_wav_pcm::Endianness::Big;
        } else {
            return Err(note("input_endianness must be little or big"));
        }
    } else if str_eq(n, "input_encoding") {
        if str_eq(v, "signed") {
            o.input_encoding = crate::raw_pcm_to_wav_pcm::IntegerEncoding::Signed;
        } else if str_eq(v, "unsigned") {
            o.input_encoding = crate::raw_pcm_to_wav_pcm::IntegerEncoding::Unsigned;
        } else {
            return Err(note("input_encoding must be signed or unsigned"));
        }
    } else if str_eq(n, "strict_frame_alignment") {
        match parse_flag(v) {
            Some(b) => o.strict_frame_alignment = b,
            None => return Err(note("strict_frame_alignment must be true or false")),
        }
    } else if str_eq(n, "buffer_size") {
        match parse_unsigned(v, usize::MAX as u64) {
            Some(x) => o.buffer_size = x as usize,
            None => return Err(note("buffer_size must be usize")),
        }
    } else if str_eq(n, "max_channels") {
        match parse_unsigned(v, u16::MAX as u64) {
            Some(x) => o.max_channels = x as u16,
            None => return Err(note("max_channels must be u16")),
        }
    } else {
        let mut s = String::from_str("unknown option ");
        s.append(n);
        return Err(s);
    }
    Ok(())
}

/// The options of a request for the raw-pcm-to-wav-pcm capability, from its
/// `(name, value)` pairs in order; the first bad pair decides the error.
pub fn raw_pcm_to_wav_pcm_options(capability_id: &str, pairs: &Vec<(String, String)>) -> (r: Result<crate::raw_pcm_to_wav_pcm::Options, AdapterError>)
    ensures
        capability_id@ != "capability:raw-pcm-to-wav-pcm/pcm-exact/native-portable"@ ==> (r matches Err(e) && e.kind
            == AdapterErrorKind::UnsupportedCapability && e.message@ == "unsupported capability"@),
        capability_id@ == "capability:raw-pcm-to-wav-pcm/pcm-exact/native-portable"@ ==> match fold_options(raw_pcm_to_wav_pcm_defaults(), pairs_text(pairs@), raw_pcm_to_wav_pcm_step()) {
            Ok(o) => r matches Ok(o2) && o2 == o,
            Err(m) => r matches Err(e) && e.kind == AdapterErrorKind::InvalidOptions && e.message@ == m,
        },
{
    if !str_eq(capability_id, "capability:raw-pcm-to-wav-pcm/pcm-exact/native-portable") {
        return Err(AdapterError::new(AdapterErrorKind::UnsupportedCapability, note("unsupported capability")));
    }
    let mut o = crate::raw_pcm_to_wav_pcm::Options::default();
    assert(o == raw_pcm_to_wav_pcm_defaults());
    let ghost all = pairs_text(pairs@);
    let mut i: usize = 0;
    while i < pairs.len()
        invariant
            i <= pairs@.len(),
            all == pairs_text(pairs@),
            capability_id@ == "capability:raw-pcm-to-wav-pcm/pcm-exact/native-portable"@,
            fold_options(raw_pcm_to_wav_pcm_defaults(), all.take(i as int), raw_pcm_to_wav_pcm_step()) == Ok::<crate::raw_pcm_to_wav_pcm::Options, Seq<char>>(o),
        decreases pairs@.len() - i,
    {
        let pair = &pairs[i];
        assert(all[i as int] == (pair.0@, pair.1@));
        assert(all.take(i + 1).drop_last() =~= all.take(i as int));
        match apply_raw_pcm_to_wav_pcm(&mut o, pair.0.as_str(), pair.1.as_str()) {
            Ok(()) => {},
            Err(m) => {
                proof { lemma_fold_err(raw_pcm_to_wav_pcm_defaults(), all, raw_pcm_to_wav_pcm_step(), i + 1); }
                return Err(AdapterError::new(AdapterErrorKind::InvalidOptions, m));
            },
        }
        i = i + 1;
    }
    assert(all.take(i as int) =~= all);
    Ok(o)
}

/// The effect of the option `n` = `v` on options for the wav-pcm-to-raw-pcm capability.
pub open spec fn wav_pcm_to_raw_pcm_option(o: crate::wav_pcm_to_raw_pcm::Options, n: Seq<char>, v: Seq<char>) -> Result<crate::wav_pcm_to_raw_pcm::Options, Seq<char>> {
    if n == "output_endianness"@ {
        if v == "little"@ {
            Ok(crate::wav_pcm_to_raw_pcm::Options { output_endianness: crate::wav_pcm_to_raw_pcm::Endianness::Little, ..o })
        } else if v == "big"@ {
            Ok(crate::wav_pcm_to_raw_pcm::Options { output_endianness: crate::wav_pcm_to_raw_pcm::Endianness::Big, ..o })
        } else {
            Err("output_endianness must be little or big"@)
        }
    } else if n == "output_encoding"@ {
        if v == "signed"@ {
            Ok(crate::wav_pcm_to_raw_pcm::Options { output_encoding: crate::wav_pcm_to_raw_pcm::IntegerEncoding::Signed, ..o })
        } else if v == "unsigned"@ {
            Ok(crate::wav_pcm_to_raw_pcm::Options { output_encoding: crate::wav_pcm_to_raw_pcm::IntegerEncoding::Unsigned, ..o })
        } else {
            Err("output_encoding must be signed or unsigned"@)
        }
    } else if n == "strict_header_consistency"@ {
        match crate::option_text::flag_text(v) {
            Some(b) => Ok(crate::wav_pcm_to_raw_pcm::Options { strict_header_consistency: b, ..o }),
            None => Err("strict_header_consistency must be true or false"@),
        }
    } else if n == "buffer_size"@ {
        match crate::option_text::unsigned_at_most(v, usize::MAX as int) {
            Some(x) => Ok(crate::wav_pcm_to_raw_pcm::Options { buffer_size: x as usize, ..o }),
            None => Err("buffer_size must be usize"@),
        }
    } else if n == "max_channels"@ {
        match crate::option_text::unsigned_at_most(v, u16::MAX as int) {
            Some(x) => Ok(crate::wav_pcm_to_raw_pcm::Options { max_channels: x as u16, ..o }),
            None => Err("max_channels must be u16"@),
        }
    } else {
        Err(crate::option_text::unknown_option(n))
    }
}

pub open spec fn wav_pcm_to_raw_pcm_step() -> spec_fn(crate::wav_pcm_to_raw_pcm::Options, Seq<char>, Seq<char>) -> Result<crate::wav_pcm_to_raw_pcm::Options, Seq<char>> {
    |o: crate::wav_pcm_to_raw_pcm::Options, n: Seq<char>, v: Seq<char>| wav_pcm_to_raw_pcm_option(o, n, v)
}

pub open spec fn wav_pcm_to_raw_pcm_defaults() -> crate::wav_pcm_to_raw_pcm::Options {
    crate::wav_pcm_to_raw_pcm::Options {
        output_endianness: crate::wav_pcm_to_raw_pcm::Endianness::Little,
        output_encoding: crate::wav_pcm_to_raw_pcm::IntegerEncoding::Signed,
        strict_header_consistency: true,
        buffer_size: 65536,
        max_channels: 256,
    }
}

fn apply_wav_pcm_to_raw_pcm(o: &mut crate::wav_pcm_to_raw_pcm::Options, n: &str, v: &str) -> (r: Result<(), String>)
    ensures
        match wav_pcm_to_raw_pcm_option(*old(o), n@, v@) {
            Ok(o2) => r is Ok && *final(o) == o2,
            Err(m) => r matches Err(s) && s@ == m,
        },
{
    if str_eq(n, "output_endianness") {
        if str_eq(v, "little") {
            o.output_endianness = crate::wav_pcm_to_raw_pcm::Endianness::Little;
        } else if str_eq(v, "big") {
            o.output_endianness = crate::wav_pcm_to_raw_pcm::Endianness::Big;
        } else {
            return Err(note("output_endianness must be little or big"));
        }
    } else if str_eq(n, "output_encoding") {
        if str_eq(v, "signed") {
            o.output_encoding = crate::wav_pcm_to_raw_pcm::IntegerEncoding::Signed;
        } else if str_eq(v, "unsigned") {
            o.output_encoding = crate::wav_pcm_to_raw_pcm::IntegerEncoding::Unsigned;
        } else {
            return Err(note("output_encoding must be signed or unsigned"));
        }
    } else if str_eq(n, "strict_header_consistency") {
        match parse_flag(v) {
            Some(b) => o.strict_header_consistency = b,
            None => return Err(note("strict_header_consistency must be true or false")),
        }
    } else if str_eq(n, "buffer_size") {
        match parse_unsigned(v, usize::MAX as u64) {
            Some(x) => o.buffer_size = x as usize,
            None => return Err(note("buffer_size must be usize")),
        }
    } else if str_eq(n, "max_channels") {
        match parse_unsigned(v, u16::MAX as u64) {
            Some(x) => o.max_channels = x as u16,
            None => return Err(note("max_channels must be u16")),
        }
    } else {
        let mut s = String::from_str("unknown option ");
        s.append(n);
        return Err(s);
    }
    Ok(())
}

/// The options of a request for the wav-pcm-to-raw-pcm capability, from its
/// `(name, value)` pairs in order; the first bad pair decides the error.
pub fn wav_pcm_to_raw_pcm_options(capability_id: &str, pairs: &Vec<(String, String)>) -> (r: Result<crate::wav_pcm_to_raw_pcm::Options, AdapterError>)
    ensures
        capability_id@ != "capability:wav-pcm-to-raw-pcm/pcm-exact/native-portable"@ ==> (r matches Err(e) && e.kind
            == AdapterErrorKind::UnsupportedCapability && e.message@ == "unsupported capability"@),
        capability_id@ == "capability:wav-pcm-to-raw-pcm/pcm-exact/native-portable"@ ==> match fold_options(wav_pcm_to_raw_pcm_defaults(), pairs_text(pairs@), wav_pcm_to_raw_pcm_step()) {
            Ok(o) => r matches Ok(o2) && o2 == o,
            Err(m) => r matches Err(e) && e.kind == AdapterErrorKind::InvalidOptions && e.message@ == m,
        },
{
    if !str_eq(capability_id, "capability:wav-pcm-to-raw-pcm/pcm-exact/native-portable") {
        return Err(AdapterError::new(AdapterErrorKind::UnsupportedCapability, note("unsupported capability")));
    }
    let mut o = crate::wav_pcm_to_raw_pcm::Options::default();
    assert(o == wav_pcm_to_raw_pcm_defaults());
    let ghost all = pairs_text(pairs@);
    let mut i: usize = 0;
    while i < pairs.len()
        invariant
            i <= pairs@.len(),
            all == pairs_text(pairs@),
            capability_id@ == "capability:wav-pcm-to-raw-pcm/pcm-exact/native-portable"@,
            fold_options(wav_pcm_to_raw_pcm_defaults(), all.take(i as int), wav_pcm_to_raw_pcm_step()) == Ok::<crate::wav_pcm_to_raw_pcm::Options, Seq<char>>(o),
        decreases pairs@.len() - i,
    {
        let pair = &pairs[i];
        assert(all[i as int] == (pair.0@, pair.1@));
        assert(all.take(i + 1).drop_last() =~= all.take(i as int));
        match apply_wav_pcm_to_raw_pcm(&mut o, pair.0.as_str(), pair.1.as_str()) {
            Ok(()) => {},
            Err(m) => {
                proof { lemma_fold_err(wav_pcm_to_raw_pcm_defaults(), all, wav_pcm_to_raw_pcm_step(), i + 1); }
                return Err(AdapterError::new(AdapterErrorKind::InvalidOptions, m));
            },
        }
        i = i + 1;
    }
    assert(all.take(i as int) =~= all);
    Ok(o)
}

/// The effect of the option `n` = `v` on options for the bmp-to-png capability.
pub open spec fn bmp_to_png_option(o: crate::bmp_to_png::Options, n: Seq<char>, v: Seq<char>) -> Result<crate::bmp_to_png::Options, Seq<char>> {
    if n == "filter"@ {
        if v == "none"@ {
            Ok(crate::bmp_to_png::Options { filter: crate::bmp_to_png::FilterStrategy::NoFilter, ..o })
        } else if v == "sub"@ {
            Ok(crate::bmp_to_png::Options { filter: crate::bmp_to_png::FilterStrategy::Sub, ..o })
        } else if v == "up"@ {
            Ok(crate::bmp_to_png::Options { filter: crate::bmp_to_png::FilterStrategy::Up, ..o })
        } else if v == "average"@ {
            Ok(crate::bmp_to_png::Options { filter: crate::bmp_to_png::FilterStrategy::Average, ..o })
        } else if v == "paeth"@ {
            Ok(crate::bmp_to_png::Options { filter: crate::bmp_to_png::FilterStrategy::Paeth, ..o })
        } else if v == "adaptive"@ {
            Ok(crate::bmp_to_png::Options { filter: crate::bmp_to_png::FilterStrategy::Adaptive, ..o })
        } else {
            Err("filter must be none, sub, up, average, paeth, or adaptive"@)
        }
    } else if n == "compression"@ {
        if v == "fixed-rle"@ {
            Ok(crate::bmp_to_png::Options { compression: crate::bmp_to_png::CompressionStrategy::FixedRle, ..o })
        } else if v == "store"@ {
            Ok(crate::bmp_to_png::Options { compression: crate::bmp_to_png::CompressionStrategy::Store, ..o })
        } else {
            Err("compression must be fixed-rle or store"@)
        }
    } else if n == "unmarked_alpha"@ {
        if v == "opaque"@ {
            Ok(crate::bmp_to_png::Options { unmarked_alpha: crate::bmp_to_png::UnmarkedAlpha::Opaque, ..o })
        } else if v == "preserve"@ {
            Ok(crate::bmp_to_png::Options { unmarked_alpha: crate::bmp_to_png::UnmarkedAlpha::Preserve, ..o })
        } else {
            Err("unmarked_alpha must be opaque or preserve"@)
        }
    } else if n == "idat_chunk_size"@ {
        match crate::option_text::unsigned_at_most(v, usize::MAX as int) {
            Some(x) => Ok(crate::bmp_to_png::Options { idat_chunk_size: x as usize, ..o }),
            None => Err("idat_chunk_size must be an unsigned integer"@),
        }
    } else if n == "max_pixels"@ {
        match crate::option_text::unsigned_at_most(v, u64::MAX as int) {
            Some(x) => Ok(crate::bmp_to_png::Options { max_pixels: x as u64, ..o }),
            None => Err("max_pixels must be an unsigned integer"@),
        }
    } else if n == "strict_declared_file_size"@ {
        match crate::option_text::flag_text(v) {
            Some(b) => Ok(crate::bmp_to_png::Options { strict_declared_file_size: b, ..o }),
            None => Err("strict_declared_file_size must be true or false"@),
        }
    } else {
        Err(crate::option_text::unknown_option(n))
    }
}

pub open spec fn bmp_to_png_step() -> spec_fn(crate::bmp_to_png::Options, Seq<char>, Seq<char>) -> Result<crate::bmp_to_png::Options, Seq<char>> {
    |o: crate::bmp_to_png::Options, n: Seq<char>, v: Seq<char>| bmp_to_png_option(o, n, v)
}

pub open spec fn bmp_to_png_defaults() -> crate::bmp_to_png::Options {
    crate::bmp_to_png::Options {
        filter: crate::bmp_to_png::FilterStrategy::Adaptive,
        compression: crate::bmp_to_png::CompressionStrategy::FixedRle,
        unmarked_alpha: crate::bmp_to_png::UnmarkedAlpha::Opaque,
        idat_chunk_size: 65536,
        max_pixels: 100_000_000,
        strict_declared_file_size: true,
    }
}

fn apply_bmp_to_png(o: &mut crate::bmp_to_png::Options, n: &str, v: &str) -> (r: Result<(), String>)
    ensures
        match bmp_to_png_option(*old(o), n@, v@) {
            Ok(o2) => r is Ok && *final(o) == o2,
            Err(m) => r matches Err(s) && s@ == m,
        },
{
    if str_eq(n, "filter") {
        if str_eq(v, "none") {
            o.filter = crate::bmp_to_png::FilterStrategy::NoFilter;
        } else if str_eq(v, "sub") {
            o.filter = crate::bmp_to_png::FilterStrategy::Sub;
        } else if str_eq(v, "up") {
            o.filter = crate::bmp_to_png::FilterStrategy::Up;
        } else if str_eq(v, "average") {
            o.filter = crate::bmp_to_png::FilterStrategy::Average;
        } else if str_eq(v, "paeth") {
            o.filter = crate::bmp_to_png::FilterStrategy::Paeth;
        } else if str_eq(v, "adaptive") {
            o.filter = crate::bmp_to_png::FilterStrategy::Adaptive;
        } else {
            return Err(note("filter must be none, sub, up, average, paeth, or adaptive"));
        }
    } else if str_eq(n, "compression") {
        if str_eq(v, "fixed-rle") {
            o.compression = crate::bmp_to_png::CompressionStrategy::FixedRle;
        } else if str_eq(v, "store") {
            o.compression = crate::bmp_to_png::CompressionStrategy::Store;
        } else {
            return Err(note("compression must be fixed-rle or store"));
        }
    } else if str_eq(n, "unmarked_alpha") {
        if str_eq(v, "opaque") {
            o.unmarked_alpha = crate::bmp_to_png::UnmarkedAlpha::Opaque;
        } else if str_eq(v, "preserve") {
            o.unmarked_alpha = crate::bmp_to_png::UnmarkedAlpha::Preserve;
        } else {
            return Err(note("unmarked_alpha must be opaque or preserve"));
        }
    } else if str_eq(n, "idat_chunk_size") {
        match parse_unsigned(v, usize::MAX as u64) {
            Some(x) => o.idat_chunk_size = x as usize,
            None => return Err(note("idat_chunk_size must be an unsigned integer")),
        }
    } else if str_eq(n, "max_pixels") {
        match parse_unsigned(v, u64::MAX as u64) {
            Some(x) => o.max_pixels = x as u64,
            None => return Err(note("max_pixels must be an unsigned integer")),
        }
    } else if str_eq(n, "strict_declared_file_size") {
        match parse_flag(v) {
            Some(b) => o.strict_declared_file_size = b,
            None => return Err(note("strict_declared_file_size must be true or false")),
        }
    } else {
        let mut s = String::from_str("unknown option ");
        s.append(n);
        return Err(s);
    }
    Ok(())
}

/// The options of a request for the bmp-to-png capability, from its
/// `(name, value)` pairs in order; the first bad pair decides the error.
pub fn bmp_to_png_options(capability_id: &str, pairs: &Vec<(String, String)>, max_memory_bytes: u64) -> (r: Result<crate::bmp_to_png::Options, AdapterError>)
    ensures
        capability_id@ != "capability:bmp-to-png/pixel-exact/native-portable"@ ==> (r matches Err(e) && e.kind
            == AdapterErrorKind::UnsupportedCapability && e.message@ == "unsupported capability "@ + capability_id@),
        capability_id@ == "capability:bmp-to-png/pixel-exact/native-portable"@ ==> match fold_options(bmp_to_png_defaults(), pairs_text(pairs@), bmp_to_png_step()) {
            Ok(o) => if o.idat_chunk_size > max_memory_bytes {
                r matches Err(e) && e.kind == AdapterErrorKind::ResourceLimit && e.message@ == "idat_chunk_size exceeds request memory budget"@
            } else if o.max_pixels > max_memory_bytes / 2 {
                r matches Err(e) && e.kind == AdapterErrorKind::ResourceLimit && e.message@ == "max_pixels exceeds the Adapter's conservative RLE memory budget"@
            } else {
                r matches Ok(o2) && o2 == o
            },
            Err(m) => r matches Err(e) && e.kind == AdapterErrorKind::InvalidOptions && e.message@ == m,
        },
{
    if !str_eq(capability_id, "capability:bmp-to-png/pixel-exact/native-portable") {
        let mut s = String::from_str("unsupported capability ");
        s.append(capability_id);
        return Err(AdapterError::new(AdapterErrorKind::UnsupportedCapability, s));
    }
    let mut o = crate::bmp_to_png::Options::default();
    assert(o == bmp_to_png_defaults());
    let ghost all = pairs_text(pairs@);
    let mut i: usize = 0;
    while i < pairs.len()
        invariant
            i <= pairs@.len(),
            all == pairs_text(pairs@),
            capability_id@ == "capability:bmp-to-png/pixel-exact/native-portable"@,
            fold_options(bmp_to_png_defaults(), all.take(i as int), bmp_to_png_step()) == Ok::<crate::bmp_to_png::Options, Seq<char>>(o),
        decreases pairs@.len() - i,
    {
        let pair = &pairs[i];
        assert(all[i as int] == (pair.0@, pair.1@));
        assert(all.take(i + 1).drop_last() =~= all.take(i as int));
        match apply_bmp_to_png(&mut o, pair.0.as_str(), pair.1.as_str()) {
            Ok(()) => {},
            Err(m) => {
                proof { lemma_fold_err(bmp_to_png_defaults(), all, bmp_to_png_step(), i + 1); }
                return Err(AdapterError::new(AdapterErrorKind::InvalidOptions, m));
            },
        }
        i = i + 1;
    }
    assert(all.take(i as int) =~= all);
    if o.idat_chunk_size as u64 > max_memory_bytes {
        return Err(AdapterError::new(AdapterErrorKind::ResourceLimit, note("idat_chunk_size exceeds request memory budget")));
    }
    if o.max_pixels > max_memory_bytes / 2 {
        return Err(AdapterError::new(AdapterErrorKind::ResourceLimit, note("max_pixels exceeds the Adapter's conservative RLE memory budget")));
    }
    Ok(o)
}

/// The input bytes a wav-pcm-to-aiff invocation may buffer: the memory
/// budget less the capsule's two sample buffers and its metadata allowance.
pub fn wav_pcm_to_aiff_input_limit(options: &crate::wav_pcm_to_aiff::Options, max_memory_bytes: u64) -> (r: Result<u64, AdapterError>)
    ensures
        2 * options.buffer_size + options.max_metadata_bytes > u64::MAX ==> (r matches Err(e) && e.kind
            == AdapterErrorKind::ResourceLimit && e.message@
            == "configured Capsule working memory overflows the resource counter"@),
        2 * options.buffer_size + options.max_metadata_bytes <= u64::MAX && 2 * options.buffer_size
            + options.max_metadata_bytes > max_memory_bytes ==> (r matches Err(e) && e.kind
            == AdapterErrorKind::ResourceLimit && e.message@
            == "configured Capsule working memory exceeds the request budget"@),
        2 * options.buffer_size + options.max_metadata_bytes <= max_memory_bytes ==> r
            == Ok::<u64, AdapterError>(
            (max_memory_bytes - 2 * options.buffer_size - options.max_metadata_bytes) as u64,
        ),
{
    let core = match (options.buffer_size as u64).checked_mul(2) {
        Some(v) => v.checked_add(options.max_metadata_bytes),
        None => None,
    };
    let core = match core {
        Some(v) => v,
        None => {
            return Err(
                AdapterError::new(
                    AdapterErrorKind::ResourceLimit,
                    note("configured Capsule working memory overflows the resource counter"),
                ),
            )
        },
    };
    if core > max_memory_bytes {
        return Err(
            AdapterError::new(
                AdapterErrorKind::ResourceLimit,
                note("configured Capsule working memory exceeds the request budget"),
            ),
        );
    }
    Ok(max_memory_bytes - core)
}

/// The peak memory of a wav-pcm-to-aiff invocation, the buffered input plus
/// the capsule's reported working memory, when it fits the budget.
pub fn wav_pcm_to_aiff_peak(input_bytes: u64, working_bytes: u64, max_memory_bytes: u64) -> (r: Result<u64, AdapterError>)
    ensures
        input_bytes + working_bytes > u64::MAX ==> (r matches Err(e) && e.kind == AdapterErrorKind::ResourceLimit
            && e.message@ == "peak memory size overflow"@),
        input_bytes + working_bytes <= u64::MAX && input_bytes + working_bytes > max_memory_bytes ==> (r matches Err(
            e,
        ) && e.kind == AdapterErrorKind::ResourceLimit && e.message@
            == "static Adapter and Capsule working memory exceed the request budget"@),
        input_bytes + working_bytes <= max_memory_bytes ==> r == Ok::<u64, AdapterError>(
            (input_bytes + working_bytes) as u64,
        ),
{
    let peak = match input_bytes.checked_add(working_bytes) {
        Some(v) => v,
        None => {
            return Err(AdapterError::new(AdapterErrorKind::ResourceLimit, note("peak memory size overflow")));
        },
    };
    if peak > max_memory_bytes {
        return Err(
            AdapterError::new(
                AdapterErrorKind::ResourceLimit,
                note("static Adapter and Capsule working memory exceed the request budget"),
            ),
        );
    }
    Ok(peak)
}

/// Whether a bmp-to-png invocation's reported working memory fits the
/// budget; refused with a resource-limit error otherwise.
pub fn bmp_to_png_memory_check(working_bytes: u64, max_memory_bytes: u64) -> (r: Result<(), AdapterError>)
    ensures
        r is Ok <==> working_bytes <= max_memory_bytes,
        r matches Err(e) ==> e.kind == AdapterErrorKind::ResourceLimit && e.message@
            == "reported Capsule working memory exceeds request budget"@,
{
    if working_bytes > max_memory_bytes {
        return Err(
            AdapterError::new(
                AdapterErrorKind::ResourceLimit,
                note("reported Capsule working memory exceeds request budget"),
            ),
        );
    }
    Ok(())
}

} // verus!
