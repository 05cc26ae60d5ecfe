pub mod buffer;
pub mod engine;
pub mod stream;

pub use stream::ByteSink;
pub use stream::ByteSource;
pub use stream::IconvReader;
pub use stream::IconvWriter;
pub use stream::SliceSource;
pub use stream::VecSink;
pub use stream::copy;

pub use engine::Iconv;
pub use engine::IconvError;

use vstd::prelude::*;

use engine::conv_result;
use engine::decode_done;
use engine::decode_ok;
use engine::decoded_of;
use engine::decoded_is_text;
use engine::enc_clean;
use engine::verbatim_encoder;
use engine::encodes;
use engine::lemma_enc_clean_prefix;
use engine::supported;
use engine::utf8_of;
use vstd::string::StringSliceAdditionalSpecFns;

verus! {

/// Floor for freshly sized output regions: growth retries start here so that
/// pathological byte-at-a-time regrowth cannot happen.
pub const MIN_WRITE: usize = 4096;

/// The next output capacity to try after `cap` proved too small: geometric
/// growth from the `MIN_WRITE` floor, so the number of retries stays
/// logarithmic in the final size.
fn grow_cap(cap: usize) -> (r: usize)
    ensures
        r >= cap,
        r >= MIN_WRITE,
{
    if cap < MIN_WRITE {
        MIN_WRITE
    } else if cap <= usize::MAX / 2 {
        2 * cap
    } else {
        usize::MAX
    }
}

/// Convert `input` from `from_encoding` to `to_encoding` in one shot.
///
/// The output buffer is grown and the conversion retried whenever the
/// converter reports insufficient output space, so that condition is never
/// surfaced; any other error aborts the conversion with nothing returned.
/// Success is owed exactly when the pair of names resolves, the input holds
/// no illegal sequence, it does not end inside a multibyte unit, and every
/// decoded character is mappable into the target encoding.
pub fn iconv(input: &[u8], from_encoding: &str, to_encoding: &str) -> (r: Result<
    Vec<u8>,
    IconvError,
>)
    ensures
        r matches Ok(v) ==> v@ == conv_result(from_encoding@, to_encoding@, input@),
        r is Ok <==> supported(from_encoding@) && encodes(to_encoding@) && decode_ok(
            from_encoding@,
            input@,
        ) && decode_done(from_encoding@, input@) && enc_clean(
            to_encoding@,
            decoded_of(from_encoding@, input@),
        ),
        (r matches Err(e) && e is ConversionNotSupport) <==> !(supported(from_encoding@)
            && encodes(to_encoding@)),
        (r matches Err(e) && e is InvalidInput) <==> supported(from_encoding@) && encodes(
            to_encoding@,
        ) && !(decode_ok(from_encoding@, input@) && enc_clean(
            to_encoding@,
            decoded_of(from_encoding@, input@),
        )),
        (r matches Err(e) && e is IncompleteInput) <==> supported(from_encoding@) && encodes(
            to_encoding@,
        ) && decode_ok(from_encoding@, input@) && enc_clean(
            to_encoding@,
            decoded_of(from_encoding@, input@),
        ) && !decode_done(from_encoding@, input@),
        r matches Err(e) ==> !(e is NotSufficientOutput) && !(e is OsError),
        r matches Ok(v) ==> (to_encoding@ == "UTF-8"@ ==> exists|t: Seq<char>| utf8_of(t)
            == v@),
{
    let mut c = match Iconv::new(from_encoding, to_encoding) {
        Ok(c) => c,
        Err(e) => {
            return Err(e);
        },
    };
    let mut out: Vec<u8> = Vec::new();
    let mut read: usize = 0;
    let mut outcap: usize = MIN_WRITE;
    while read < input.len()
        invariant
            c.wf(),
            c.clean(),
            !c.is_closed(),
            read <= input@.len(),
            c.from_name() == from_encoding@,
            c.to_name() == to_encoding@,
            c.fed() == input@.take(read as int),
            c.produced() == out@,
            outcap >= MIN_WRITE,
            supported(from_encoding@) && encodes(to_encoding@),
            decoded_is_text(from_encoding@),
            to_encoding@ == "UTF-8"@ ==> verbatim_encoder(to_encoding@),
        decreases input@.len() - read,
    {
        let d = vstd::slice::slice_subrange(input, read, input.len());
        let ghost fed0 = c.fed();
        match c.convert(d, outcap) {
            Ok((n, mut o)) => {
                proof {
                    assert(fed0 + d@.take(n as int) =~= input@.take((read + n) as int));
                }
                out.append(&mut o);
                read = read + n;
            },
            Err((n, mut o, e)) => {
                match e {
                    IconvError::NotSufficientOutput => {
                        proof {
                            assert(fed0 + d@.take(n as int) =~= input@.take((read + n) as int));
                        }
                        let none_written = o.len() == 0;
                        out.append(&mut o);
                        read = read + n;
                        if none_written {
                            outcap = grow_cap(outcap);
                        }
                    },
                    _ => {
                        proof {
                            assert(fed0 + d@ =~= input@);
                            assert(fed0 + d@.take(n as int) =~= input@.take((read + n) as int));
                            assert(input@.take((read + n) as int) + d@.skip(n as int) =~= input@);
                            if enc_clean(to_encoding@, decoded_of(from_encoding@, input@)) {
                                lemma_enc_clean_prefix(
                                    to_encoding@,
                                    decoded_of(from_encoding@, input@.take((read + n) as int)),
                                    decoded_of(from_encoding@, input@),
                                );
                            }
                        }
                        return Err(e);
                    },
                }
            },
        }
    }
    proof {
        assert(input@.take(read as int) =~= input@);
    }
    loop
        invariant
            c.wf(),
            c.clean(),
            c.from_name() == from_encoding@,
            c.to_name() == to_encoding@,
            c.fed() == input@,
            c.produced() == out@,
            outcap >= MIN_WRITE,
            supported(from_encoding@) && encodes(to_encoding@),
            c.is_closed() ==> decode_ok(from_encoding@, input@) && decode_done(
                from_encoding@,
                input@,
            ) && enc_clean(to_encoding@, decoded_of(from_encoding@, input@)),
            decoded_is_text(from_encoding@),
            to_encoding@ == "UTF-8"@ ==> verbatim_encoder(to_encoding@),
        decreases c.staged(),
    {
        let empty: Vec<u8> = Vec::new();
        match c.convert(empty.as_slice(), outcap) {
            Ok((_, mut o)) => {
                out.append(&mut o);
                return Ok(out);
            },
            Err((_, mut o, e)) => {
                match e {
                    IconvError::NotSufficientOutput => {
                        let none_written = o.len() == 0;
                        out.append(&mut o);
                        if none_written {
                            outcap = grow_cap(outcap);
                        }
                    },
                    _ => {
                        proof {
                            assert(input@ + empty@ =~= input@);
                        }
                        return Err(e);
                    },
                }
            },
        }
    }
}

/// Convert the text `input` from UTF-8 to `encoding`.
pub fn encode(input: &str, encoding: &str) -> (r: Result<Vec<u8>, IconvError>)
    ensures
        r matches Ok(v) ==> v@ == conv_result("UTF-8"@, encoding@, input.spec_bytes()),
        r is Ok <==> supported("UTF-8"@) && encodes(encoding@) && decode_ok(
            "UTF-8"@,
            input.spec_bytes(),
        ) && decode_done("UTF-8"@, input.spec_bytes()) && enc_clean(
            encoding@,
            decoded_of("UTF-8"@, input.spec_bytes()),
        ),
        (r matches Err(e) && e is ConversionNotSupport) <==> !(supported("UTF-8"@) && encodes(
            encoding@,
        )),
        (r matches Err(e) && e is InvalidInput) <==> supported("UTF-8"@) && encodes(encoding@)
            && !(decode_ok("UTF-8"@, input.spec_bytes()) && enc_clean(
            encoding@,
            decoded_of("UTF-8"@, input.spec_bytes()),
        )),
        (r matches Err(e) && e is IncompleteInput) <==> supported("UTF-8"@) && encodes(encoding@)
            && decode_ok("UTF-8"@, input.spec_bytes()) && enc_clean(
            encoding@,
            decoded_of("UTF-8"@, input.spec_bytes()),
        ) && !decode_done("UTF-8"@, input.spec_bytes()),
        r matches Err(e) ==> !(e is NotSufficientOutput) && !(e is OsError),
{
    iconv(input.as_bytes(), "UTF-8", encoding)
}

/// Convert `input` from `encoding` to UTF-8 text. On success the returned
/// text's UTF-8 bytes are exactly the converted image of `input`; success is
/// owed exactly when the pair resolves and the input converts cleanly, since
/// conversion into UTF-8 always yields text readable back as UTF-8.
pub fn decode(input: &[u8], encoding: &str) -> (r: Result<String, IconvError>)
    ensures
        r matches Ok(s) ==> utf8_of(s@) == conv_result(encoding@, "UTF-8"@, input@),
        r is Ok <==> supported(encoding@) && encodes("UTF-8"@) && decode_ok(encoding@, input@)
            && decode_done(encoding@, input@) && enc_clean(
            "UTF-8"@,
            decoded_of(encoding@, input@),
        ),
        (r matches Err(e) && e is ConversionNotSupport) <==> !(supported(encoding@) && encodes(
            "UTF-8"@,
        )),
        (r matches Err(e) && e is InvalidInput) <==> supported(encoding@) && encodes("UTF-8"@)
            && !(decode_ok(encoding@, input@) && enc_clean(
            "UTF-8"@,
            decoded_of(encoding@, input@),
        )),
        (r matches Err(e) && e is IncompleteInput) <==> supported(encoding@) && encodes("UTF-8"@)
            && decode_ok(encoding@, input@) && enc_clean(
            "UTF-8"@,
            decoded_of(encoding@, input@),
        ) && !decode_done(encoding@, input@),
        r matches Err(e) ==> !(e is NotSufficientOutput) && !(e is OsError),
{
    match iconv(input, encoding, "UTF-8") {
        Ok(v) => {
            match engine::into_utf8_string(v) {
                Some(s) => Ok(s),
                None => {
                    proof {
                        assert(false);
                    }
                    Err(IconvError::InvalidInput)
                },
            }
        },
        Err(e) => Err(e),
    }
}

/// Chunk-size independence: a streaming conversion driven to its end yields
/// byte for byte the output of the one-shot conversion of the same input,
/// whatever buffer sizes and read boundaries the caller chose along the way.
/// Every conversion path of this library pins its complete output to
/// `conv_result` of the bytes it consumed, so any two complete conversions of
/// the same input between the same encodings agree exactly.
pub proof fn lemma_stream_matches_one_shot(
    from: Seq<char>,
    to: Seq<char>,
    input: Seq<u8>,
    streamed: Seq<u8>,
    oneshot: Seq<u8>,
)
    requires
        streamed == conv_result(from, to, input),
        oneshot == conv_result(from, to, input),
    ensures
        streamed == oneshot,
{
}

} // verus!
