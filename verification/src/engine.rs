use vstd::prelude::*;
use vstd::string::StringExecFns;

verus! {

// ---------------------------------------------------------------------------
// The platform conversion primitive, specified at its boundary.
//
// The conversion tables themselves live in the outside crates; the library
// names their results and verifies everything that drives them: staging,
// growth, retry and streaming. A converter bound to a (source, target) pair
// of encoding names decodes source bytes to an intermediate text and encodes
// that text into target bytes; both halves are stateful and keep partial
// sequences between calls.
// ---------------------------------------------------------------------------

#[verifier::external_type_specification]
#[verifier::external_body]
pub struct ExEncoding(encoding_rs::Encoding);

#[verifier::external_type_specification]
#[verifier::external_body]
pub struct ExDecoder(encoding_rs::Decoder);

#[verifier::external_type_specification]
#[verifier::external_body]
pub struct ExEncoder(encoding_rs::Encoder);

#[verifier::external_type_specification]
#[verifier::external_body]
pub struct ExIoError(std::io::Error);

/// Whether the platform resolves this encoding name to a converter.
pub uninterp spec fn supported(label: Seq<char>) -> bool;

/// The intermediate text (as UTF-8 bytes) that a fresh decoder for the
/// encoding named `from` has produced after consuming exactly `fed`.
pub uninterp spec fn decoded_of(from: Seq<char>, fed: Seq<u8>) -> Seq<u8>;

/// The bytes that a fresh encoder for the encoding named `to` has produced
/// after consuming exactly the text `fed` (as UTF-8 bytes); `finished` tells
/// whether the stream end was signalled, which may add a closing sequence.
pub uninterp spec fn encoded_of(to: Seq<char>, fed: Seq<u8>, finished: bool) -> Seq<u8>;

/// Whether the platform can encode into this name: the name resolves and its
/// converter really produces that encoding (names whose converter would fall
/// back to another output encoding are rejected).
pub uninterp spec fn encodes(label: Seq<char>) -> bool;

/// Whether a fresh decoder for the encoding named `from`, consuming exactly
/// `fed`, meets no illegal byte sequence.
pub uninterp spec fn decode_ok(from: Seq<char>, fed: Seq<u8>) -> bool;

/// Whether a fresh decoder for the encoding named `from`, after consuming
/// exactly `fed` without meeting an illegal sequence, holds no partial
/// multibyte unit: `fed` ends on a unit boundary.
pub uninterp spec fn decode_done(from: Seq<char>, fed: Seq<u8>) -> bool;

/// Whether a fresh encoder for the encoding named `to`, consuming exactly the
/// text `fed` (as UTF-8 bytes), meets no unmappable character.
pub uninterp spec fn encode_ok(to: Seq<char>, fed: Seq<u8>) -> bool;

/// The text `fed` encodes cleanly into `to`, as does each of its prefixes: no
/// unmappable character anywhere in it.
pub open spec fn enc_clean(to: Seq<char>, fed: Seq<u8>) -> bool {
    forall|i: int| 0 <= i <= fed.len() ==> #[trigger] encode_ok(to, fed.take(i))
}

/// A prefix of a cleanly encodable text is itself cleanly encodable.
pub proof fn lemma_enc_clean_prefix(to: Seq<char>, a: Seq<u8>, b: Seq<u8>)
    requires
        a.is_prefix_of(b),
        enc_clean(to, b),
    ensures
        enc_clean(to, a),
{
    assert forall|i: int| 0 <= i <= a.len() implies #[trigger] encode_ok(to, a.take(i)) by {
        assert(a.take(i) =~= b.take(i));
    }
}

/// The UTF-8 bytes of the text `s`.
pub uninterp spec fn utf8_of(s: Seq<char>) -> Seq<u8>;

/// Everything a decoder for `from` produces is the UTF-8 encoding of some
/// text.
pub open spec fn decoded_is_text(from: Seq<char>) -> bool {
    forall|fed: Seq<u8>| exists|t: Seq<char>| utf8_of(t) == #[trigger] decoded_of(from, fed)
}

/// The encoder for `to` copies its text verbatim, with no closing sequence.
pub open spec fn verbatim_encoder(to: Seq<char>) -> bool {
    forall|text: Seq<u8>, fin: bool| #[trigger] encoded_of(to, text, fin) == text
}

/// The full conversion of `input` from encoding `from` to encoding `to`:
/// everything a fresh converter emits when it consumes exactly `input` and is
/// then told that the stream has ended.
pub open spec fn conv_result(from: Seq<char>, to: Seq<char>, input: Seq<u8>) -> Seq<u8> {
    encoded_of(to, decoded_of(from, input), true)
}

/// Relies on String::from_utf8: it succeeds exactly when the bytes are the
/// UTF-8 encoding of some text, and then returns that text.
#[verifier::external_body]
pub(crate) fn into_utf8_string(v: Vec<u8>) -> (r: Option<String>)
    ensures
        r matches Some(s) ==> utf8_of(s@) == v@,
        r is Some <==> exists|t: Seq<char>| utf8_of(t) == v@,
{
    String::from_utf8(v).ok()
}

#[derive(Debug)]
pub enum IconvError {
    ConversionNotSupport,
    OsError(i32),
    IncompleteInput,
    InvalidInput,
    NotSufficientOutput,
}

impl IconvError {
    /// Relies on std::io::Error::new and std::io::Error::from_raw_os_error to
    /// carry each variant as the matching I/O error kind.
    #[verifier::external_body]
    pub fn into_io_error(self) -> std::io::Error {
        match self {
            IconvError::OsError(e) => std::io::Error::from_raw_os_error(e),
            IconvError::ConversionNotSupport => std::io::Error::new(std::io::ErrorKind::Unsupported, "the conversion is not supported by the implementation"),
            IconvError::NotSufficientOutput => std::io::Error::new(std::io::ErrorKind::InvalidInput, "there is not sufficient room in the output"),
            IconvError::InvalidInput => std::io::Error::new(std::io::ErrorKind::InvalidData, "an invalid multibyte sequence has been encountered in the input"),
            IconvError::IncompleteInput => std::io::Error::new(std::io::ErrorKind::InvalidInput, "an incomplete multibyte sequence has been encountered in the input"),
        }
    }
}

/// The bytes read by one convert step, whether it succeeded or not.
pub open spec fn step_read(r: Result<(usize, Vec<u8>), (usize, Vec<u8>, IconvError)>) -> usize {
    match r {
        Ok(p) => p.0,
        Err(p) => p.0,
    }
}

/// The bytes written by one convert step, whether it succeeded or not.
pub open spec fn step_out(r: Result<(usize, Vec<u8>), (usize, Vec<u8>, IconvError)>) -> Seq<u8> {
    match r {
        Ok(p) => p.1@,
        Err(p) => p.1@,
    }
}

/// Outcome classification of one decoder or encoder step.
enum StepStatus {
    /// The whole pending input of the step was consumed.
    Done,
    /// The step stopped early for want of output space.
    Full,
    /// The step found an illegal or unmappable sequence.
    Bad,
}

/// The representation of a converter bound to one (source, target) pair of
/// encoding names.
pub struct Iconv {
    dec: encoding_rs::Decoder,
    enc: encoding_rs::Encoder,
    from_label: String,
    to_label: String,
    /// Decoded text not yet encoded, as UTF-8 bytes.
    pivot: Vec<u8>,
    closed: bool,
    /// The source encoding name.
    from: Ghost<Seq<char>>,
    /// The target encoding name.
    to: Ghost<Seq<char>>,
    /// All input bytes the decoder has consumed since construction or reset.
    dec_fed: Ghost<Seq<u8>>,
    /// All intermediate text bytes the encoder has consumed.
    enc_fed: Ghost<Seq<u8>>,
    /// All output bytes the encoder has produced.
    emitted: Ghost<Seq<u8>>,
    /// Whether the encoder was told that the stream has ended.
    enc_fin: Ghost<bool>,
}

impl Iconv {
    /// The source encoding name this converter was bound to.
    pub closed spec fn from_name(&self) -> Seq<char> {
        self.from@
    }

    /// The target encoding name this converter was bound to.
    pub closed spec fn to_name(&self) -> Seq<char> {
        self.to@
    }

    /// All input bytes the converter has consumed since construction or
    /// reset.
    pub closed spec fn fed(&self) -> Seq<u8> {
        self.dec_fed@
    }

    /// All output bytes the converter has produced since construction or
    /// reset.
    pub closed spec fn produced(&self) -> Seq<u8> {
        self.emitted@
    }

    /// How much decoded text is staged inside the converter, still waiting to
    /// be encoded.
    pub closed spec fn staged(&self) -> nat {
        self.pivot@.len()
    }
    /// Every decoded byte is either already encoded or still staged, and the
    /// output produced so far is exactly the encoding of the text consumed.
    pub closed spec fn wf(&self) -> bool {
        &&& supported(self.from@)
        &&& encodes(self.to@)
        &&& self.from@ == self.from_label@
        &&& self.to@ == self.to_label@
        &&& decoded_of(self.from@, self.dec_fed@) == self.enc_fed@ + self.pivot@
        &&& self.emitted@ == encoded_of(self.to@, self.enc_fed@, self.enc_fin@)
    }

    /// Whether the stream end was already signalled to the converter.
    pub closed spec fn is_closed(&self) -> bool {
        self.closed
    }

    /// No illegal byte sequence has been consumed and no unmappable character
    /// has been encoded: the conversion so far is clean.
    pub closed spec fn clean(&self) -> bool {
        decode_ok(self.from@, self.dec_fed@) && enc_clean(self.to@, self.enc_fed@)
    }

    /// Relies on encoding_rs::Encoding::for_label for WHATWG encoding names
    /// and on codepage::to_encoding for names of the shape `CP` followed by a
    /// Windows code-page number; which names resolve depends on the name
    /// alone.
    #[verifier::external_body]
    fn resolve(label: &str) -> (r: Option<&'static encoding_rs::Encoding>)
        ensures
            r is Some <==> supported(label@),
    {
        match encoding_rs::Encoding::for_label(label.as_bytes()) {
            Some(e) => Some(e),
            None => label
                .strip_prefix("CP")
                .and_then(|d| d.parse::<u16>().ok())
                .and_then(codepage::to_encoding),
        }
    }

    /// Relies on encoding_rs::Encoding::new_decoder_without_bom_handling: a
    /// fresh decoder has consumed and produced nothing, has met no illegal
    /// sequence, and holds no partial unit; and whatever a decoder produces
    /// is the UTF-8 encoding of some text.
    #[verifier::external_body]
    fn open_decoder(label: &str) -> (r: Option<encoding_rs::Decoder>)
        ensures
            r is Some <==> supported(label@),
            r is Some ==> decoded_of(label@, Seq::<u8>::empty()) == Seq::<u8>::empty()
                && decode_ok(label@, Seq::<u8>::empty()) && decode_done(
                label@,
                Seq::<u8>::empty(),
            ),
            r is Some ==> decoded_is_text(label@),
    {
        Self::resolve(label).map(|e| e.new_decoder_without_bom_handling())
    }

    /// Relies on encoding_rs::Encoding::new_encoder and Encoding::output_encoding:
    /// a name resolves here only when its converter truly produces that
    /// encoding (for a few names the platform would substitute another output
    /// encoding; those are rejected). A fresh encoder has consumed and
    /// produced nothing and has met no unmappable character; finishing an
    /// encoder that consumed nothing emits nothing, since no closing sequence
    /// is pending in the initial state; and the UTF-8 encoder copies its text
    /// verbatim, consuming every character without a closing sequence.
    #[verifier::external_body]
    fn open_encoder(label: &str) -> (r: Option<encoding_rs::Encoder>)
        ensures
            r is Some <==> encodes(label@),
            r is Some ==> encoded_of(label@, Seq::<u8>::empty(), false) == Seq::<u8>::empty()
                && encode_ok(label@, Seq::<u8>::empty()) && encoded_of(
                label@,
                Seq::<u8>::empty(),
                true,
            ) == Seq::<u8>::empty(),
            r is Some && label@ == "UTF-8"@ ==> verbatim_encoder(label@),
    {
        match Self::resolve(label) {
            Some(e) if e.output_encoding() == e => Some(e.new_encoder()),
            _ => None,
        }
    }

    /// Creates a new converter from `from_encoding` to `to_encoding`. The
    /// names are handed to the platform unmodified; the pair is rejected at
    /// construction, before any byte is processed, when either name does not
    /// resolve.
    pub fn new(from_encoding: &str, to_encoding: &str) -> (r: Result<Iconv, IconvError>)
        ensures
            r matches Ok(c) ==> c.wf() && c.clean() && c.from_name() == from_encoding@
                && c.to_name() == to_encoding@ && c.fed() == Seq::<u8>::empty() && c.produced()
                == Seq::<u8>::empty() && !c.is_closed(),
            r is Ok <==> supported(from_encoding@) && encodes(to_encoding@),
            r matches Err(e) ==> e is ConversionNotSupport,
            r is Ok ==> decoded_is_text(from_encoding@),
            r is Ok && to_encoding@ == "UTF-8"@ ==> verbatim_encoder(to_encoding@),
    {
        let dec = match Self::open_decoder(from_encoding) {
            Some(d) => d,
            None => {
                return Err(IconvError::ConversionNotSupport);
            },
        };
        let enc = match Self::open_encoder(to_encoding) {
            Some(e) => e,
            None => {
                return Err(IconvError::ConversionNotSupport);
            },
        };
        let c = Iconv {
            dec,
            enc,
            from_label: String::from_str(from_encoding),
            to_label: String::from_str(to_encoding),
            pivot: Vec::new(),
            closed: false,
            from: Ghost(from_encoding@),
            to: Ghost(to_encoding@),
            dec_fed: Ghost(Seq::empty()),
            enc_fed: Ghost(Seq::empty()),
            emitted: Ghost(Seq::empty()),
            enc_fin: Ghost(false),
        };
        proof {
            assert(decoded_of(c.from@, c.dec_fed@) =~= c.enc_fed@ + c.pivot@);
            assert forall|i: int| 0 <= i <= c.enc_fed@.len() implies #[trigger] encode_ok(
                c.to@,
                c.enc_fed@.take(i),
            ) by {
                assert(c.enc_fed@.take(i) =~= Seq::<u8>::empty());
            }
        }
        Ok(c)
    }

    /// Relies on encoding_rs::Decoder::decode_to_utf8_without_replacement: it
    /// consumes a prefix of `input` (holding a trailing partial sequence
    /// internally rather than leaving it unread), appends at most `cap` bytes
    /// of decoded text to the pivot without splitting characters, and its
    /// cumulative output is a function of the encoding and the bytes consumed
    /// so far, as is whether an illegal sequence was met and whether a partial
    /// unit is pending. With `last` it checks that no partial sequence is
    /// pending and emits nothing. Since no character needs more than four
    /// bytes of UTF-8, a step given at least four bytes of space and pending
    /// input consumes at least one byte before it can stop for want of
    /// space.
    #[verifier::external_body]
    fn decode_step(&mut self, input: &[u8], cap: usize, last: bool) -> (r: (usize, StepStatus))
        requires
            !old(self).is_closed(),
        ensures
            r.0 <= input@.len(),
            final(self).dec_fed@ == old(self).dec_fed@ + input@.take(r.0 as int),
            final(self).from@ == old(self).from@,
            final(self).to@ == old(self).to@,
            final(self).from_label@ == old(self).from_label@,
            final(self).to_label@ == old(self).to_label@,
            final(self).enc_fed@ == old(self).enc_fed@,
            final(self).emitted@ == old(self).emitted@,
            final(self).enc_fin@ == old(self).enc_fin@,
            final(self).is_closed() == old(self).is_closed(),
            decoded_of(old(self).from@, old(self).dec_fed@) == old(self).enc_fed@
                + old(self).pivot@ ==> decoded_of(final(self).from@, final(self).dec_fed@)
                == final(self).enc_fed@ + final(self).pivot@,
            r.1 is Done ==> r.0 == input@.len(),
            r.1 is Full && cap >= 4 && input@.len() > 0 ==> r.0 >= 1,
            cap == 0 ==> final(self).pivot@ == old(self).pivot@,
            !last && r.1 is Bad ==> !decode_ok(final(self).from@, final(self).dec_fed@),
            !(r.1 is Bad) && decode_ok(old(self).from@, old(self).dec_fed@) ==> decode_ok(
                final(self).from@,
                final(self).dec_fed@,
            ),
            !last && decode_ok(old(self).from@, old(self).dec_fed@ + input@) ==> !(r.1 is Bad),
            last && input@.len() == 0 && decode_ok(old(self).from@, old(self).dec_fed@) ==> (
            r.1 is Done <==> decode_done(old(self).from@, old(self).dec_fed@)) && !(r.1 is Full),
            decoded_of(final(self).from@, final(self).dec_fed@).is_prefix_of(
                decoded_of(
                    final(self).from@,
                    final(self).dec_fed@ + input@.skip(r.0 as int),
                ),
            ),
    {
        let mut dst = vec![0u8; cap];
        let (res, read, written) =
            self.dec.decode_to_utf8_without_replacement(input, &mut dst, last);
        dst.truncate(written);
        self.pivot.extend_from_slice(&dst);
        let status = match res {
            encoding_rs::DecoderResult::InputEmpty => StepStatus::Done,
            encoding_rs::DecoderResult::OutputFull => StepStatus::Full,
            encoding_rs::DecoderResult::Malformed(_, _) => StepStatus::Bad,
        };
        (read, status)
    }

    /// Relies on encoding_rs::Encoder::encode_from_utf8_without_replacement:
    /// it consumes a prefix of the staged pivot text (whole characters only,
    /// so the consumed prefix stays on a character boundary), produces at most
    /// `outcap` bytes, and its cumulative output is a function of the
    /// encoding, the text consumed so far and whether the stream end was
    /// signalled; signalling the end again after it reported completion
    /// produces nothing further. No single unit nor a closing sequence comes
    /// anywhere near 64 bytes, so a step given that much space either
    /// finishes the pending text or consumes part of it before it can stop
    /// for want of space. Whether an unmappable character is met is likewise a
    /// function of the encoding and the text: one inside the pending text is
    /// reported no later than the step that would consume it, and never when
    /// the whole pending text is mappable. The staged pivot bytes are decoder
    /// output, which is guaranteed valid UTF-8 and never cut inside a
    /// character, so reading them back as text cannot fail.
    #[verifier::external_body]
    fn encode_step(&mut self, outcap: usize, last: bool) -> (r: (Vec<u8>, StepStatus))
        ensures
            r.0@.len() <= outcap,
            final(self).emitted@ == old(self).emitted@ + r.0@,
            final(self).dec_fed@ == old(self).dec_fed@,
            final(self).from@ == old(self).from@,
            final(self).to@ == old(self).to@,
            final(self).from_label@ == old(self).from_label@,
            final(self).to_label@ == old(self).to_label@,
            final(self).is_closed() == old(self).is_closed(),
            final(self).enc_fin@ == (old(self).enc_fin@ || (last && r.1 is Done)),
            decoded_of(old(self).from@, old(self).dec_fed@) == old(self).enc_fed@
                + old(self).pivot@ ==> decoded_of(final(self).from@, final(self).dec_fed@)
                == final(self).enc_fed@ + final(self).pivot@,
            old(self).emitted@ == encoded_of(old(self).to@, old(self).enc_fed@, old(self).enc_fin@)
                ==> final(self).emitted@ == encoded_of(
                final(self).to@,
                final(self).enc_fed@,
                final(self).enc_fin@,
            ),
            r.1 is Done ==> final(self).pivot@.len() == 0,
            !last ==> final(self).enc_fin@ == old(self).enc_fin@,
            r.1 is Full && outcap >= 64 ==> old(self).pivot@.len() > 0 && final(self).pivot@.len()
                < old(self).pivot@.len(),
            r.1 is Bad ==> !enc_clean(old(self).to@, old(self).enc_fed@ + old(self).pivot@),
            !(r.1 is Bad) && enc_clean(old(self).to@, old(self).enc_fed@) ==> enc_clean(
                final(self).to@,
                final(self).enc_fed@,
            ),
            enc_clean(old(self).to@, old(self).enc_fed@ + old(self).pivot@) ==> !(r.1 is Bad),
            old(self).pivot@.len() == 0 && !last ==> r.0@.len() == 0 && r.1 is Done,
            final(self).pivot@.len() <= old(self).pivot@.len(),
    {
        let mut dst = vec![0u8; outcap];
        let src = core::str::from_utf8(&self.pivot).unwrap();
        let (res, read, written) = self.enc.encode_from_utf8_without_replacement(src, &mut dst, last);
        dst.truncate(written);
        self.pivot.drain(..read);
        let status = match res {
            encoding_rs::EncoderResult::InputEmpty => StepStatus::Done,
            encoding_rs::EncoderResult::OutputFull => StepStatus::Full,
            encoding_rs::EncoderResult::Unmappable(_) => StepStatus::Bad,
        };
        (dst, status)
    }

    /// Convert a prefix of `input` into at most `outcap` fresh output bytes.
    ///
    /// An empty `input` signals the end of the stream: staged text is drained
    /// first, so an unmappable character in it is reported before the end is
    /// judged; then the converter checks that no partial sequence is pending
    /// and emits any closing output. Returns `Ok((bytes_read, output))` with
    /// the whole of `input` consumed, or `Err((bytes_read, output, e))`;
    /// bytes already read and written stay valid on `NotSufficientOutput`,
    /// and the caller retries with more space. After the end of the stream
    /// was signalled, a conversion of fresh input starts over from a `reset`.
    pub fn convert(&mut self, input: &[u8], outcap: usize) -> (r: Result<
        (usize, Vec<u8>),
        (usize, Vec<u8>, IconvError),
    >)
        requires
            old(self).wf(),
            !old(self).is_closed() || input@.len() == 0,
        ensures
            final(self).wf(),
            final(self).from_name() == old(self).from_name(),
            final(self).to_name() == old(self).to_name(),
            step_read(r) <= input@.len(),
            final(self).fed() == old(self).fed() + input@.take(step_read(r) as int),
            final(self).produced() == old(self).produced() + step_out(r),
            step_out(r).len() <= outcap,
            r matches Ok(p) ==> p.0 == input@.len(),
            r matches Err(p) ==> p.2 is NotSufficientOutput || p.2 is InvalidInput
                || p.2 is IncompleteInput,
            r matches Err(p) && p.2 is IncompleteInput ==> input@.len() == 0,
            input@.len() == 0 ==> final(self).fed() == old(self).fed(),
            input@.len() == 0 && (r is Ok || (r matches Err(p) && p.2 is IncompleteInput))
                ==> final(self).is_closed(),
            input@.len() > 0 ==> !final(self).is_closed(),
            input@.len() == 0 && r is Ok ==> final(self).produced() == conv_result(
                final(self).from_name(),
                final(self).to_name(),
                final(self).fed(),
            ),
            input@.len() > 0 ==> step_read(r) >= 1 || (r matches Err(p) && p.2 is InvalidInput),
            input@.len() == 0 && outcap >= 64 && (r matches Err(p)
                && p.2 is NotSufficientOutput) ==> final(self).staged() < old(self).staged(),
            // a clean conversion stays clean until an illegal or unmappable
            // sequence is reported
            old(self).clean() && !(r matches Err(p) && p.2 is InvalidInput)
                ==> final(self).clean(),
            r matches Err(p) && p.2 is InvalidInput ==> !decode_ok(
                old(self).from_name(),
                old(self).fed() + input@,
            ) || !enc_clean(
                old(self).to_name(),
                decoded_of(old(self).from_name(), final(self).fed()),
            ),
            old(self).clean() && decode_ok(old(self).from_name(), old(self).fed() + input@)
                && enc_clean(
                old(self).to_name(),
                decoded_of(old(self).from_name(), old(self).fed() + input@),
            ) ==> !(r matches Err(p) && p.2 is InvalidInput),
            input@.len() > 0 ==> decoded_of(final(self).from_name(), final(self).fed()).is_prefix_of(
                decoded_of(
                    final(self).from_name(),
                    final(self).fed() + input@.skip(step_read(r) as int),
                ),
            ),
            // the end-of-stream judgement over the named conditions, made by
            // the call that signals the end
            input@.len() == 0 && !old(self).is_closed() && old(self).clean()
                && final(self).is_closed() && !(r matches Err(p) && (p.2 is IncompleteInput
                || p.2 is InvalidInput)) ==> decode_ok(
                final(self).from_name(),
                final(self).fed(),
            ) && decode_done(final(self).from_name(), final(self).fed()) && enc_clean(
                final(self).to_name(),
                decoded_of(final(self).from_name(), final(self).fed()),
            ),
            input@.len() == 0 && !old(self).is_closed() && old(self).clean() && (r matches Err(p)
                && p.2 is IncompleteInput) ==> decode_ok(final(self).from_name(), final(self).fed())
                && !decode_done(final(self).from_name(), final(self).fed()) && enc_clean(
                final(self).to_name(),
                decoded_of(final(self).from_name(), final(self).fed()),
            ),
            input@.len() == 0 && old(self).clean() && decode_done(
                old(self).from_name(),
                old(self).fed(),
            ) && enc_clean(
                old(self).to_name(),
                decoded_of(old(self).from_name(), old(self).fed()),
            ) ==> !(r matches Err(p) && (p.2 is IncompleteInput || p.2 is InvalidInput)),
    {
        if input.len() == 0 {
            if !self.closed {
                let ghost pre = *self;
                let (out1, est1) = self.encode_step(outcap, false);
                proof {
                    assert(self.dec_fed@ + input@.take(0) =~= self.dec_fed@);
                    assert(pre.enc_fed@ + pre.pivot@ =~= decoded_of(pre.from@, pre.dec_fed@));
                }
                match est1 {
                    StepStatus::Bad => {
                        return Err((0, out1, IconvError::InvalidInput));
                    },
                    StepStatus::Full => {
                        return Err((0, out1, IconvError::NotSufficientOutput));
                    },
                    StepStatus::Done => {},
                }
                let fin = self.decode_step(input, 0, true);
                self.closed = true;
                proof {
                    assert(self.dec_fed@ + input@.take(fin.0 as int) =~= self.dec_fed@);
                    assert(self.enc_fed@ + self.pivot@ =~= self.enc_fed@);
                }
                match fin.1 {
                    StepStatus::Bad => {
                        return Err((0, out1, IconvError::IncompleteInput));
                    },
                    _ => {},
                }
                let room = outcap - out1.len();
                let (mut out2, est2) = self.encode_step(room, true);
                let mut out = out1;
                out.append(&mut out2);
                match est2 {
                    StepStatus::Done => {
                        proof {
                            assert(self.enc_fed@ + self.pivot@ =~= self.enc_fed@);
                        }
                        Ok((0, out))
                    },
                    StepStatus::Full => Err((0, out, IconvError::NotSufficientOutput)),
                    StepStatus::Bad => Err((0, out, IconvError::InvalidInput)),
                }
            } else {
                let (out, est) = self.encode_step(outcap, true);
                proof {
                    assert(self.dec_fed@ + input@.take(0) =~= self.dec_fed@);
                }
                match est {
                    StepStatus::Done => {
                        proof {
                            assert(self.enc_fed@ + self.pivot@ =~= self.enc_fed@);
                        }
                        Ok((0, out))
                    },
                    StepStatus::Full => Err((0, out, IconvError::NotSufficientOutput)),
                    StepStatus::Bad => Err((0, out, IconvError::InvalidInput)),
                }
            }
        } else {
            let step = self.decode_step(input, crate::MIN_WRITE, false);
            let nread = step.0;
            match step.1 {
                StepStatus::Bad => {
                    let out: Vec<u8> = Vec::new();
                    proof {
                        assert(self.emitted@ + out@ =~= self.emitted@);
                    }
                    return Err((nread, out, IconvError::InvalidInput));
                },
                _ => {},
            }
            let ghost mid = *self;
            proof {
                assert(mid.enc_fed@ + mid.pivot@ =~= decoded_of(mid.from@, mid.dec_fed@));
                assert(mid.dec_fed@ + input@.skip(nread as int) =~= old(self).dec_fed@ + input@);
                if old(self).clean() && enc_clean(
                    old(self).to@,
                    decoded_of(old(self).from@, old(self).dec_fed@ + input@),
                ) {
                    lemma_enc_clean_prefix(
                        mid.to@,
                        decoded_of(mid.from@, mid.dec_fed@),
                        decoded_of(mid.from@, old(self).dec_fed@ + input@),
                    );
                }
            }
            let (out, est) = self.encode_step(outcap, false);
            proof {
                assert(mid.enc_fed@ + mid.pivot@ =~= decoded_of(mid.from@, mid.dec_fed@));
            }
            match est {
                StepStatus::Bad => Err((nread, out, IconvError::InvalidInput)),
                StepStatus::Full => Err((nread, out, IconvError::NotSufficientOutput)),
                StepStatus::Done => {
                    match step.1 {
                        StepStatus::Done => Ok((nread, out)),
                        _ => Err((nread, out, IconvError::NotSufficientOutput)),
                    }
                },
            }
        }
    }

    /// Whether the end of the stream was already signalled.
    pub fn is_finished(&self) -> (b: bool)
        ensures
            b == self.is_closed(),
    {
        self.closed
    }

    /// Reset to the initial state: the converter behaves as one freshly bound
    /// to the same pair of encoding names.
    pub fn reset(&mut self)
        requires
            old(self).wf(),
        ensures
            final(self).wf(),
            final(self).clean(),
            final(self).from_name() == old(self).from_name(),
            final(self).to_name() == old(self).to_name(),
            final(self).fed() == Seq::<u8>::empty(),
            final(self).produced() == Seq::<u8>::empty(),
            !final(self).is_closed(),
    {
        let fresh = Iconv::new(self.from_label.as_str(), self.to_label.as_str());
        match fresh {
            Ok(c) => {
                *self = c;
            },
            Err(_) => {
                proof {
                    assert(false);
                }
            },
        }
    }
}

} // verus!
