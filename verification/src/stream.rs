use vstd::prelude::*;

use crate::buffer::GrowBuf;
use crate::engine::Iconv;
use crate::engine::IconvError;
use crate::engine::conv_result;
use crate::engine::decode_done;
use crate::engine::decode_ok;
use crate::engine::decoded_of;
use crate::engine::enc_clean;
use crate::engine::encodes;
use crate::engine::supported;
use crate::MIN_WRITE;

verus! {

/// A pull-based byte producer: each pull yields zero or more bytes, and zero
/// bytes signal the end of the stream. A source that accounts for its bytes
/// (`accounted`) exposes `yielded`, everything handed out so far, and
/// `remaining`, a bound on how much it can still yield, so that driving it to
/// its end terminates; a source of unknown extent leaves `accounted` at its
/// default and promises nothing of either.
pub trait ByteSource: Sized {
    open spec fn accounted(&self) -> bool {
        false
    }

    open spec fn yielded(&self) -> Seq<u8> {
        Seq::empty()
    }

    open spec fn remaining(&self) -> nat {
        0
    }

    /// Whether the source has reported its end: a pull yielded zero bytes.
    open spec fn exhausted(&self) -> bool {
        false
    }

    fn pull(&mut self, max: usize) -> (r: Result<Vec<u8>, std::io::Error>)
        ensures
            r matches Ok(v) ==> v@.len() <= max,
            final(self).accounted() == old(self).accounted(),
            old(self).accounted() ==> (r matches Ok(v) ==> final(self).yielded() == old(
                self,
            ).yielded() + v@ && final(self).remaining() <= old(self).remaining() && (v@.len() > 0
                ==> final(self).remaining() < old(self).remaining())),
            old(self).accounted() ==> (r is Err ==> final(self).yielded() == old(self).yielded()
                && final(self).remaining() == old(self).remaining()),
            old(self).accounted() ==> (r matches Ok(v) ==> (v@.len() == 0 && max > 0
                ==> final(self).exhausted())),
    ;
}

/// A push-based byte consumer: each push accepts at least one byte of a
/// non-empty slice. A sink that accounts for its bytes (`accounted`) exposes
/// `accepted`, everything taken so far; a sink of unknown state leaves
/// `tracked` at its default and promises nothing of it.
pub trait ByteSink: Sized {
    open spec fn accounted(&self) -> bool {
        false
    }

    open spec fn accepted(&self) -> Seq<u8> {
        Seq::empty()
    }

    fn push(&mut self, data: &[u8]) -> (r: Result<usize, std::io::Error>)
        ensures
            r matches Ok(n) ==> n <= data@.len() && (data@.len() > 0 ==> n >= 1),
            final(self).accounted() == old(self).accounted(),
            old(self).accounted() ==> (r matches Ok(n) ==> final(self).accepted() == old(
                self,
            ).accepted() + data@.take(n as int)),
            old(self).accounted() ==> (r is Err ==> final(self).accepted() == old(self).accepted()),
    ;

    fn flush_out(&mut self) -> (r: Result<(), std::io::Error>)
        ensures
            final(self).accounted() == old(self).accounted(),
            old(self).accounted() ==> final(self).accepted() == old(self).accepted(),
    ;
}

/// A byte source over an in-memory buffer.
pub struct SliceSource {
    data: Vec<u8>,
    pos: usize,
}

impl SliceSource {
    pub fn new(data: Vec<u8>) -> (r: SliceSource)
        ensures
            r.yielded() == Seq::<u8>::empty(),
            r.all_bytes() == data@,
    {
        let r = SliceSource { data, pos: 0 };
        proof {
            assert(r.yielded() =~= Seq::<u8>::empty());
        }
        r
    }

    /// Everything this source will have yielded once it is exhausted.
    pub closed spec fn all_bytes(&self) -> Seq<u8> {
        self.data@
    }
}

impl ByteSource for SliceSource {
    open spec fn accounted(&self) -> bool {
        true
    }

    closed spec fn yielded(&self) -> Seq<u8> {
        if self.pos <= self.data@.len() {
            self.data@.take(self.pos as int)
        } else {
            self.data@
        }
    }

    closed spec fn remaining(&self) -> nat {
        if self.pos <= self.data@.len() {
            (self.data@.len() - self.pos) as nat
        } else {
            0
        }
    }

    closed spec fn exhausted(&self) -> bool {
        self.pos >= self.data@.len()
    }

    fn pull(&mut self, max: usize) -> (r: Result<Vec<u8>, std::io::Error>)
        ensures
            final(self).all_bytes() == old(self).all_bytes(),
            final(self).yielded().is_prefix_of(final(self).all_bytes()),
            max > 0 ==> (r matches Ok(v) ==> (v@.len() == 0 <==> old(self).yielded() == old(
                self,
            ).all_bytes())),
            final(self).exhausted() <==> final(self).yielded() == final(self).all_bytes(),
    {
        if self.pos >= self.data.len() {
            let v: Vec<u8> = Vec::new();
            proof {
                assert(self.yielded() =~= self.all_bytes());
            }
            return Ok(v);
        }
        proof {
            assert(old(self).yielded().len() < old(self).all_bytes().len());
        }
        let avail = self.data.len() - self.pos;
        let k = if max < avail {
            max
        } else {
            avail
        };
        let v = vstd::slice::slice_to_vec(
            vstd::slice::slice_subrange(self.data.as_slice(), self.pos, self.pos + k),
        );
        self.pos = self.pos + k;
        proof {
            assert(final(self).yielded() =~= old(self).yielded() + v@);
            assert(self.yielded() =~= self.all_bytes().take(self.pos as int));
            if self.pos >= self.data.len() {
                assert(self.yielded() =~= self.all_bytes());
            } else {
                assert(self.yielded().len() < self.all_bytes().len());
            }
        }
        Ok(v)
    }
}

/// A byte sink over an in-memory buffer.
pub struct VecSink {
    data: Vec<u8>,
}

impl VecSink {
    pub fn new() -> (r: VecSink)
        ensures
            r.accepted() == Seq::<u8>::empty(),
    {
        VecSink { data: Vec::new() }
    }

    pub fn into_vec(self) -> (r: Vec<u8>)
        ensures
            r@ == self.accepted(),
    {
        self.data
    }
}

impl ByteSink for VecSink {
    open spec fn accounted(&self) -> bool {
        true
    }

    closed spec fn accepted(&self) -> Seq<u8> {
        self.data@
    }

    fn push(&mut self, data: &[u8]) -> (r: Result<usize, std::io::Error>) {
        self.data.extend_from_slice(data);
        proof {
            assert(final(self).accepted() =~= old(self).accepted() + data@.take(
                data@.len() as int,
            ));
        }
        Ok(data.len())
    }

    fn flush_out(&mut self) -> (r: Result<(), std::io::Error>) {
        Ok(())
    }
}

proof fn lemma_concat_parts(a: Seq<u8>, b: Seq<u8>, n: int)
    requires
        0 <= n <= a.len(),
    ensures
        (a + b).skip(n) == a.skip(n) + b,
        (a + b).take(n) == a.take(n),
{
    assert((a + b).skip(n) =~= a.skip(n) + b);
    assert((a + b).take(n) =~= a.take(n));
}

proof fn lemma_prefix_trans(a: Seq<u8>, b: Seq<u8>, c: Seq<u8>)
    requires
        a.is_prefix_of(b),
        b.is_prefix_of(c),
    ensures
        a.is_prefix_of(c),
{
    assert(c.take(a.len() as int) =~= b.take(a.len() as int));
    assert(a =~= c.take(a.len() as int));
}

proof fn lemma_take_skip(a: Seq<u8>, n: int)
    requires
        0 <= n <= a.len(),
    ensures
        a.take(n) + a.skip(n) == a,
{
    assert(a.take(n) + a.skip(n) =~= a);
}

/// A streaming decoder: wraps a pull-based byte source and a converter, and
/// yields converted bytes on demand.
pub struct IconvReader<R: ByteSource> {
    iconv: Iconv,
    reader: R,
    input: GrowBuf,
    output: GrowBuf,
    /// What the source had already yielded before this adapter took it over.
    base: Ghost<Seq<u8>>,
    /// Converted bytes already surrendered to the caller.
    returned: Ghost<Seq<u8>>,
}

impl<R: ByteSource> IconvReader<R> {
    /// The source encoding name.
    pub closed spec fn from_name(&self) -> Seq<char> {
        self.iconv.from_name()
    }

    /// The target encoding name.
    pub closed spec fn to_name(&self) -> Seq<char> {
        self.iconv.to_name()
    }

    /// Converted bytes already surrendered to the caller.
    pub closed spec fn returned(&self) -> Seq<u8> {
        self.returned@
    }

    /// Converted bytes staged for look-ahead, not yet consumed.
    pub closed spec fn buffered(&self) -> Seq<u8> {
        self.output@
    }

    /// The bytes this adapter has pulled from the underlying source.
    pub closed spec fn source_bytes(&self) -> Seq<u8> {
        self.reader.yielded().skip(self.base@.len() as int)
    }

    /// The underlying source.
    pub closed spec fn source(&self) -> R {
        self.reader
    }

    /// Whether the underlying source has reported its end.
    pub closed spec fn source_ended(&self) -> bool {
        self.reader.exhausted()
    }

    /// Every pulled byte is either consumed by the converter or still staged,
    /// and every converted byte was either surrendered or is staged for
    /// look-ahead.
    pub closed spec fn wf(&self) -> bool {
        &&& self.iconv.wf()
        &&& self.input.wf()
        &&& self.output.wf()
        &&& self.reader.accounted()
        &&& self.base@.is_prefix_of(self.reader.yielded())
        &&& self.iconv.fed() + self.input@ == self.source_bytes()
        &&& self.returned@ + self.output@ == self.iconv.produced()
        &&& self.iconv.is_closed() ==> self.input@.len() == 0
        &&& self.iconv.is_closed() ==> self.reader.exhausted()
    }

    pub fn new(reader: R, from_encoding: &str, to_encoding: &str) -> (r: Result<Self, IconvError>)
        ensures
            r matches Ok(rd) ==> rd.from_name() == from_encoding@ && rd.to_name() == to_encoding@
                && rd.returned() == Seq::<u8>::empty() && rd.buffered() == Seq::<u8>::empty()
                && rd.source_bytes() == Seq::<u8>::empty() && rd.source() == reader,
            r is Ok && reader.accounted() ==> (r matches Ok(rd) ==> rd.wf()),
            r is Ok <==> supported(from_encoding@) && encodes(to_encoding@),
            r matches Err(e) ==> e is ConversionNotSupport,
    {
        let iconv = match Iconv::new(from_encoding, to_encoding) {
            Ok(c) => c,
            Err(e) => {
                return Err(e);
            },
        };
        let ghost base = reader.yielded();
        let r = IconvReader {
            iconv,
            reader,
            input: GrowBuf::new(),
            output: GrowBuf::new(),
            base: Ghost(base),
            returned: Ghost(Seq::empty()),
        };
        proof {
            assert(r.source_bytes() =~= Seq::<u8>::empty());
            assert(r.iconv.fed() + r.input@ =~= r.source_bytes());
            assert(r.returned@ + r.output@ =~= r.iconv.produced());
            assert(r.base@.is_prefix_of(r.reader.yielded()));
        }
        Ok(r)
    }

    pub fn into_inner(self) -> (r: R)
        ensures
            r == self.source(),
    {
        self.reader
    }

    /// Surrender at most `max` bytes of freshly converted output, staging
    /// the excess for later reads so that no byte is lost or reordered.
    fn yield_up(&mut self, o: Vec<u8>, max: usize) -> (r: Vec<u8>)
        requires
            old(self).iconv.wf(),
            old(self).input.wf(),
            old(self).output.wf(),
            old(self).reader.accounted(),
            old(self).base@.is_prefix_of(old(self).reader.yielded()),
            old(self).iconv.fed() + old(self).input@ == old(self).source_bytes(),
            old(self).iconv.is_closed() ==> old(self).input@.len() == 0,
            old(self).iconv.is_closed() ==> old(self).reader.exhausted(),
            old(self).output@.len() == 0,
            old(self).returned@ + o@ == old(self).iconv.produced(),
        ensures
            final(self).wf(),
            final(self).iconv == old(self).iconv,
            final(self).input == old(self).input,
            final(self).reader == old(self).reader,
            final(self).base == old(self).base,
            r@.len() <= max,
            final(self).returned@ == old(self).returned@ + r@,
            r@ + final(self).output@ == o@,
            max > 0 && o@.len() > 0 ==> r@.len() > 0,
    {
        let k = if max < o.len() {
            max
        } else {
            o.len()
        };
        let front = vstd::slice::slice_to_vec(vstd::slice::slice_subrange(o.as_slice(), 0, k));
        let back = vstd::slice::slice_subrange(o.as_slice(), k, o.len());
        self.output.append(back);
        self.returned = Ghost(self.returned@ + front@);
        proof {
            lemma_take_skip(o@, k as int);
            assert(front@ + self.output@ =~= o@);
            assert(self.returned@ + self.output@ =~= old(self).returned@ + o@);
        }
        front
    }

    /// Pull from the source and convert, yielding at most `max` bytes.
    ///
    /// Bytes staged for look-ahead are served first, so the stream order is
    /// kept. An empty result signals the end of the stream: the source is
    /// exhausted and the converter was drained.
    pub fn read(&mut self, max: usize) -> (r: Result<Vec<u8>, std::io::Error>)
        requires
            old(self).wf(),
        ensures
            final(self).wf(),
            final(self).from_name() == old(self).from_name(),
            final(self).to_name() == old(self).to_name(),
            r matches Ok(v) ==> v@.len() <= max && final(self).returned() == old(self).returned()
                + v@,
            r is Err ==> final(self).returned() == old(self).returned(),
            r matches Ok(v) ==> (old(self).buffered().len() > 0 ==> old(self).buffered() == v@
                + final(self).buffered()),
            old(self).buffered().len() > 0 ==> r is Ok,
            r matches Ok(v) && v@.len() == 0 && max > 0 ==> final(self).buffered().len() == 0,
            r matches Ok(v) && v@.len() == 0 && max > 0 ==> final(self).source_ended(),
            r matches Ok(v) && v@.len() == 0 && max > 0 ==> final(self).returned()
                + final(self).buffered() == conv_result(
                final(self).from_name(),
                final(self).to_name(),
                final(self).source_bytes(),
            ),
    {
        if !self.output.is_empty() {
            let blen = self.output.len();
            let k = if max < blen {
                max
            } else {
                blen
            };
            let v = vstd::slice::slice_to_vec(
                vstd::slice::slice_subrange(self.output.data(), 0, k),
            );
            self.output.consume(k);
            self.returned = Ghost(self.returned@ + v@);
            proof {
                lemma_take_skip(old(self).output@, k as int);
                assert((self.returned@ + self.output@) =~= (old(self).returned@ + old(
                    self,
                ).output@));
            }
            return Ok(v);
        }
        let cap = if max > MIN_WRITE {
            max
        } else {
            MIN_WRITE
        };
        if self.iconv.is_finished() {
            let empty: Vec<u8> = Vec::new();
            match self.iconv.convert(empty.as_slice(), cap) {
                Ok((_, o)) => {
                    proof {
                        assert(self.returned@ =~= self.returned@ + self.output@);
                        assert(self.returned@ + o@ =~= self.iconv.produced());
                    }
                    let v = self.yield_up(o, max);
                    proof {
                        assert(self.iconv.fed() + self.input@ =~= self.source_bytes());
                    }
                    return Ok(v);
                },
                Err((_, o, e)) => {
                    match e {
                        IconvError::NotSufficientOutput => {
                            if o.len() > 0 {
                                proof {
                                    assert(self.returned@ =~= self.returned@ + self.output@);
                                    assert(self.returned@ + o@ =~= self.iconv.produced());
                                }
                                let v = self.yield_up(o, max);
                                proof {
                                    assert(self.iconv.fed() + self.input@
                                        =~= self.source_bytes());
                                }
                                return Ok(v);
                            }
                            return Err(IconvError::NotSufficientOutput.into_io_error());
                        },
                        _ => {
                            self.output.append(o.as_slice());
                            return Err(e.into_io_error());
                        },
                    }
                },
            }
        }
        loop
            invariant
                self.wf(),
                !self.iconv.is_closed(),
                self.output@.len() == 0,
                self.from_name() == old(self).from_name(),
                self.to_name() == old(self).to_name(),
                self.returned() == old(self).returned(),
                self.buffered() == old(self).buffered(),
            decreases self.reader.remaining(), self.input@.len(),
        {
            let ghost y0 = self.reader.yielded();
            let pulled = match self.reader.pull(MIN_WRITE) {
                Ok(v) => v,
                Err(e) => {
                    return Err(e);
                },
            };
            let n = pulled.len();
            self.input.append(pulled.as_slice());
            proof {
                let b = self.base@.len() as int;
                lemma_concat_parts(y0, pulled@, b);
                assert(self.base@ =~= self.reader.yielded().take(b));
                assert(self.iconv.fed() + self.input@ =~= self.source_bytes());
            }
            let stage_len = self.input.len();
            let d = self.input.data();
            let ghost dv = d@;
            match self.iconv.convert(d, cap) {
                Ok((r0, o)) => {
                    proof {
                        lemma_take_skip(dv, r0 as int);
                    }
                    self.input.consume(r0);
                    proof {
                        assert(self.iconv.fed() + self.input@ =~= self.source_bytes());
                    }
                    if o.len() > 0 || stage_len == 0 {
                        proof {
                            assert(self.returned@ =~= self.returned@ + self.output@);
                            assert(self.returned@ + o@ =~= self.iconv.produced());
                        }
                        let v = self.yield_up(o, max);
                        return Ok(v);
                    }
                    proof {
                        assert(self.returned@ + self.output@ =~= self.iconv.produced());
                    }
                },
                Err((r0, o, e)) => {
                    proof {
                        lemma_take_skip(dv, r0 as int);
                    }
                    self.input.consume(r0);
                    proof {
                        assert(self.iconv.fed() + self.input@ =~= self.source_bytes());
                    }
                    match e {
                        IconvError::NotSufficientOutput => {
                            if o.len() > 0 {
                                proof {
                                    assert(self.returned@ =~= self.returned@ + self.output@);
                                    assert(self.returned@ + o@ =~= self.iconv.produced());
                                }
                                let v = self.yield_up(o, max);
                                return Ok(v);
                            }
                            return Err(IconvError::NotSufficientOutput.into_io_error());
                        },
                        _ => {
                            self.output.append(o.as_slice());
                            return Err(e.into_io_error());
                        },
                    }
                },
            }
        }
    }

    /// Fill the look-ahead staging and expose the readable converted bytes
    /// without consuming them; `consume` gives them up explicitly.
    pub fn fill_buf(&mut self) -> (r: Result<Vec<u8>, std::io::Error>)
        requires
            old(self).wf(),
        ensures
            final(self).wf(),
            final(self).from_name() == old(self).from_name(),
            final(self).to_name() == old(self).to_name(),
            final(self).returned() == old(self).returned(),
            r matches Ok(v) ==> v@ == final(self).buffered(),
            old(self).buffered().len() > 0 ==> (r matches Ok(v) && v@ == old(self).buffered()
                && final(self).buffered() == old(self).buffered()),
            r matches Ok(v) && v@.len() == 0 ==> final(self).source_ended(),
            r matches Ok(v) && v@.len() == 0 ==> final(self).returned() + final(self).buffered()
                == conv_result(
                final(self).from_name(),
                final(self).to_name(),
                final(self).source_bytes(),
            ),
    {
        if self.output.is_empty() {
            let ghost ret0 = self.returned@;
            match self.read(MIN_WRITE) {
                Ok(v) => {
                    let mut staged = GrowBuf::new();
                    staged.append(v.as_slice());
                    staged.append(self.output.data());
                    self.output = staged;
                    self.returned = Ghost(ret0);
                    proof {
                        assert(self.returned@ + self.output@ =~= self.iconv.produced());
                    }
                },
                Err(e) => {
                    return Err(e);
                },
            }
        }
        let v = vstd::slice::slice_to_vec(self.output.data());
        Ok(v)
    }

    /// Give up `amt` bytes of the look-ahead staging.
    pub fn consume(&mut self, amt: usize)
        requires
            old(self).wf(),
            amt <= old(self).buffered().len(),
        ensures
            final(self).wf(),
            final(self).from_name() == old(self).from_name(),
            final(self).to_name() == old(self).to_name(),
            final(self).source_bytes() == old(self).source_bytes(),
            final(self).buffered() == old(self).buffered().skip(amt as int),
            final(self).returned() == old(self).returned() + old(self).buffered().take(amt as int),
    {
        self.returned = Ghost(self.returned@ + self.output@.take(amt as int));
        self.output.consume(amt);
        proof {
            lemma_take_skip(old(self).output@, amt as int);
            assert(self.returned@ + self.output@ =~= old(self).returned@ + old(self).output@);
        }
    }
}

/// A streaming encoder: wraps a push-based byte sink and a converter, and
/// converts written bytes on the fly, delivering output to the sink.
pub struct IconvWriter<W: ByteSink> {
    iconv: Iconv,
    writer: W,
    input: GrowBuf,
    output: GrowBuf,
    /// What the sink had already accepted before this adapter took it over.
    base: Ghost<Seq<u8>>,
    /// Source bytes this adapter has accepted from its callers.
    taken: Ghost<Seq<u8>>,
}

impl<W: ByteSink> IconvWriter<W> {
    /// The source encoding name.
    pub closed spec fn from_name(&self) -> Seq<char> {
        self.iconv.from_name()
    }

    /// The target encoding name.
    pub closed spec fn to_name(&self) -> Seq<char> {
        self.iconv.to_name()
    }

    /// Source bytes this adapter has accepted from its callers.
    pub closed spec fn taken(&self) -> Seq<u8> {
        self.taken@
    }

    /// Converted bytes already delivered to the underlying sink.
    pub closed spec fn pushed(&self) -> Seq<u8> {
        self.writer.accepted().skip(self.base@.len() as int)
    }

    /// The underlying sink.
    pub closed spec fn sink(&self) -> W {
        self.writer
    }

    /// Whether the stream was already flushed to its end.
    pub closed spec fn is_flushed(&self) -> bool {
        self.iconv.is_closed()
    }

    /// Converted bytes staged for delivery, not yet taken by the sink.
    pub closed spec fn staged_out(&self) -> Seq<u8> {
        self.output@
    }

    /// All output the conversion has produced so far; every byte of it was
    /// delivered to the sink or is still staged for delivery.
    pub closed spec fn converted(&self) -> Seq<u8> {
        self.iconv.produced()
    }

    /// No illegal byte sequence and no unmappable character has been met.
    pub closed spec fn conversion_clean(&self) -> bool {
        self.iconv.clean()
    }

    /// Every accepted byte is either consumed by the converter or still
    /// staged, and every converted byte was either delivered to the sink or
    /// is staged for delivery.
    pub closed spec fn wf(&self) -> bool {
        &&& self.iconv.wf()
        &&& self.input.wf()
        &&& self.output.wf()
        &&& self.writer.accounted()
        &&& self.base@.is_prefix_of(self.writer.accepted())
        &&& self.taken@ == self.iconv.fed() + self.input@
        &&& self.iconv.produced() == self.pushed() + self.output@
        &&& self.iconv.is_closed() ==> self.input@.len() == 0
    }

    pub fn new(writer: W, from_encoding: &str, to_encoding: &str) -> (r: Result<Self, IconvError>)
        ensures
            r matches Ok(w) ==> w.from_name() == from_encoding@ && w.to_name() == to_encoding@
                && w.taken() == Seq::<u8>::empty() && w.pushed() == Seq::<u8>::empty()
                && !w.is_flushed() && w.conversion_clean() && w.sink() == writer,
            r is Ok && writer.accounted() ==> (r matches Ok(w) ==> w.wf()),
            r is Ok <==> supported(from_encoding@) && encodes(to_encoding@),
            r matches Err(e) ==> e is ConversionNotSupport,
    {
        let iconv = match Iconv::new(from_encoding, to_encoding) {
            Ok(c) => c,
            Err(e) => {
                return Err(e);
            },
        };
        let ghost base = writer.accepted();
        let r = IconvWriter {
            iconv,
            writer,
            input: GrowBuf::new(),
            output: GrowBuf::new(),
            base: Ghost(base),
            taken: Ghost(Seq::empty()),
        };
        proof {
            assert(r.pushed() =~= Seq::<u8>::empty());
            assert(r.taken@ =~= r.iconv.fed() + r.input@);
            assert(r.iconv.produced() =~= r.pushed() + r.output@);
        }
        Ok(r)
    }

    pub fn into_inner(self) -> (r: W)
        ensures
            r == self.sink(),
    {
        self.writer
    }

    /// Push the staged converted bytes to the sink once; what the sink does
    /// not take stays staged.
    fn deliver(&mut self) -> (r: Result<(), std::io::Error>)
        requires
            old(self).wf(),
        ensures
            final(self).wf(),
            final(self).from_name() == old(self).from_name(),
            final(self).to_name() == old(self).to_name(),
            final(self).taken() == old(self).taken(),
            final(self).is_flushed() == old(self).is_flushed(),
            final(self).iconv == old(self).iconv,
            r is Ok && old(self).output@.len() > 0 ==> final(self).output@.len() < old(
                self,
            ).output@.len(),
            r is Err ==> final(self).pushed() == old(self).pushed(),
    {
        if self.output.is_empty() {
            return Ok(());
        }
        let ghost acc0 = self.writer.accepted();
        let ghost out0 = self.output@;
        let d = self.output.data();
        match self.writer.push(d) {
            Ok(k) => {
                proof {
                    lemma_take_skip(out0, k as int);
                    lemma_concat_parts(acc0, out0.take(k as int), self.base@.len() as int);
                    assert(self.base@ =~= self.writer.accepted().take(self.base@.len() as int));
                    assert(self.pushed() + out0.take(k as int) + out0.skip(k as int) =~= self.pushed()
                        + out0);
                }
                self.output.consume(k);
                proof {
                    assert(self.iconv.produced() =~= self.pushed() + self.output@);
                }
                Ok(())
            },
            Err(e) => Err(e),
        }
    }

    /// Convert `buf` on the fly and deliver the produced bytes to the sink.
    /// Returns how many bytes of `buf` this writer now accounts for; with
    /// carried-over staged input, the whole of `buf` is staged at once.
    /// Writing nothing succeeds without touching the sink. Writing after a
    /// flush starts a fresh stream over the same converter, as a reset does.
    pub fn write(&mut self, buf: &[u8]) -> (r: Result<usize, std::io::Error>)
        requires
            old(self).wf(),
        ensures
            final(self).wf(),
            final(self).from_name() == old(self).from_name(),
            final(self).to_name() == old(self).to_name(),
            final(self).pushed() + final(self).staged_out() == final(self).converted(),
            r is Ok && buf@.len() > 0 ==> !final(self).is_flushed(),
            buf@.len() == 0 ==> (r matches Ok(n) && n == 0 && final(self).taken()
                == old(self).taken() && final(self).is_flushed() == old(self).is_flushed()),
            !old(self).is_flushed() ==> (r matches Ok(n) ==> n <= buf@.len() && final(self).taken()
                == old(self).taken() + buf@.take(n as int)),
            !old(self).is_flushed() ==> old(self).taken().is_prefix_of(final(self).taken()),
            old(self).is_flushed() && buf@.len() > 0 ==> (r matches Ok(n) ==> n <= buf@.len()
                && final(self).taken() == buf@.take(n as int)),
            r is Ok && buf@.len() > 0 && (old(self).conversion_clean()
                || old(self).is_flushed()) ==> final(self).conversion_clean(),
            r matches Ok(n) ==> n == buf@.len(),
            !old(self).is_flushed() && r is Err ==> final(self).pushed() == old(self).pushed(),
    {
        if buf.len() == 0 {
            proof {
                assert(self.taken@.take(old(self).taken@.len() as int) =~= old(self).taken@);
            }
            return Ok(0);
        }
        if self.iconv.is_finished() {
            while !self.output.is_empty()
                invariant
                    self.wf(),
                    self.iconv.is_closed(),
                    old(self).is_flushed(),
                    buf@.len() > 0,
                    self.from_name() == old(self).from_name(),
                    self.to_name() == old(self).to_name(),
                    self.taken() == old(self).taken(),
                decreases self.output@.len(),
            {
                match self.deliver() {
                    Ok(()) => {
                    },
                    Err(e) => {
                        return Err(e);
                    },
                }
            }
            self.iconv.reset();
            self.base = Ghost(self.writer.accepted());
            self.taken = Ghost(Seq::empty());
            proof {
                assert(self.pushed() =~= Seq::<u8>::empty());
                assert(self.taken@ =~= self.iconv.fed() + self.input@);
                assert(self.iconv.produced() =~= self.pushed() + self.output@);
            }
        }
        let outcap = if buf.len() <= (usize::MAX - MIN_WRITE) / 4 {
            MIN_WRITE + 4 * buf.len()
        } else {
            usize::MAX
        };
        let ghost taken0 = self.taken@;
        if self.input.is_empty() {
            match self.iconv.convert(buf, outcap) {
                Ok((r0, o)) => {
                    self.taken = Ghost(self.taken@ + buf@.take(r0 as int));
                    self.output.append(o.as_slice());
                    proof {
                        assert(self.taken@ =~= self.iconv.fed() + self.input@);
                        assert(self.iconv.produced() =~= self.pushed() + self.output@);
                        assert(self.taken@.take(taken0.len() as int) =~= taken0);
                    }
                    match self.deliver() {
                        Ok(()) => Ok(r0),
                        Err(e) => Err(e),
                    }
                },
                Err((r0, o, e)) => {
                    self.taken = Ghost(self.taken@ + buf@.take(r0 as int));
                    self.output.append(o.as_slice());
                    proof {
                        assert(self.taken@ =~= self.iconv.fed() + self.input@);
                        assert(self.iconv.produced() =~= self.pushed() + self.output@);
                        assert(self.taken@.take(taken0.len() as int) =~= taken0);
                    }
                    Err(e.into_io_error())
                },
            }
        } else {
            self.input.append(buf);
            self.taken = Ghost(self.taken@ + buf@);
            proof {
                assert(self.taken@ =~= self.iconv.fed() + self.input@);
            }
            let d = self.input.data();
            let ghost dv = d@;
            match self.iconv.convert(d, outcap) {
                Ok((r0, o)) => {
                    proof {
                        lemma_take_skip(dv, r0 as int);
                    }
                    self.input.consume(r0);
                    self.output.append(o.as_slice());
                    proof {
                        assert(self.taken@ =~= self.iconv.fed() + self.input@);
                        assert(self.iconv.produced() =~= self.pushed() + self.output@);
                        assert(self.taken@ =~= taken0 + buf@.take(buf@.len() as int));
                        assert(self.taken@.take(taken0.len() as int) =~= taken0);
                    }
                    match self.deliver() {
                        Ok(()) => Ok(buf.len()),
                        Err(e) => Err(e),
                    }
                },
                Err((r0, o, e)) => {
                    proof {
                        lemma_take_skip(dv, r0 as int);
                    }
                    self.input.consume(r0);
                    self.output.append(o.as_slice());
                    proof {
                        assert(self.taken@ =~= self.iconv.fed() + self.input@);
                        assert(self.iconv.produced() =~= self.pushed() + self.output@);
                        assert(self.taken@.take(taken0.len() as int) =~= taken0);
                    }
                    Err(e.into_io_error())
                },
            }
        }
    }

    /// Stage for later conversion whatever `write` did not account for, so
    /// that no accepted byte is ever dropped.
    pub fn write_all(&mut self, buf: &[u8]) -> (r: Result<(), std::io::Error>)
        requires
            old(self).wf(),
        ensures
            final(self).wf(),
            final(self).from_name() == old(self).from_name(),
            final(self).to_name() == old(self).to_name(),
            final(self).pushed() + final(self).staged_out() == final(self).converted(),
            r is Ok && buf@.len() > 0 ==> !final(self).is_flushed(),
            buf@.len() == 0 ==> r is Ok && final(self).taken() == old(self).taken()
                && final(self).is_flushed() == old(self).is_flushed(),
            !old(self).is_flushed() ==> (r is Ok ==> final(self).taken() == old(self).taken()
                + buf@),
            !old(self).is_flushed() ==> old(self).taken().is_prefix_of(final(self).taken()),
            old(self).is_flushed() && buf@.len() > 0 ==> (r is Ok ==> final(self).taken()
                == buf@),
            r is Ok && buf@.len() > 0 && (old(self).conversion_clean()
                || old(self).is_flushed()) ==> final(self).conversion_clean(),
    {
        let w = match self.write(buf) {
            Ok(w) => w,
            Err(e) => {
                return Err(e);
            },
        };
        if w < buf.len() {
            let rest = vstd::slice::slice_subrange(buf, w, buf.len());
            self.input.append(rest);
            self.taken = Ghost(self.taken@ + rest@);
            proof {
                lemma_take_skip(buf@, w as int);
                assert(self.taken@ =~= self.iconv.fed() + self.input@);
                if !old(self).is_flushed() {
                    assert(self.taken@ =~= old(self).taken@ + buf@);
                    assert(self.taken@.take(old(self).taken@.len() as int) =~= old(self).taken@);
                } else {
                    assert(self.taken@ =~= buf@);
                }
            }
        } else {
            proof {
                assert(buf@.take(w as int) =~= buf@);
                if !old(self).is_flushed() {
                    assert(self.taken@.take(old(self).taken@.len() as int) =~= old(self).taken@);
                }
            }
        }
        Ok(())
    }

    /// Drain the converter, deliver everything staged, and flush the sink.
    /// Flushing with an unfinished multibyte sequence pending is fatal:
    /// flushing cannot silently discard data. On success the sink has
    /// received exactly the conversion of every byte this writer accepted.
    pub fn flush(&mut self) -> (r: Result<(), std::io::Error>)
        requires
            old(self).wf(),
        ensures
            final(self).wf(),
            final(self).from_name() == old(self).from_name(),
            final(self).to_name() == old(self).to_name(),
            final(self).taken() == old(self).taken(),
            final(self).pushed() + final(self).staged_out() == final(self).converted(),
            r is Ok ==> final(self).staged_out().len() == 0,
            r is Ok ==> final(self).is_flushed() && final(self).pushed() == conv_result(
                final(self).from_name(),
                final(self).to_name(),
                final(self).taken(),
            ),
            r is Ok && old(self).conversion_clean() ==> final(self).conversion_clean(),
            r is Ok && old(self).conversion_clean() && !old(self).is_flushed() ==> decode_ok(
                final(self).from_name(),
                final(self).taken(),
            ) && decode_done(
                final(self).from_name(),
                final(self).taken(),
            ) && enc_clean(
                final(self).to_name(),
                decoded_of(final(self).from_name(), final(self).taken()),
            ),
    {
        while !self.input.is_empty()
            invariant
                self.wf(),
                self.from_name() == old(self).from_name(),
                self.to_name() == old(self).to_name(),
                self.taken() == old(self).taken(),
                !self.iconv.is_closed() || self.input@.len() == 0,
                old(self).conversion_clean() ==> self.iconv.clean(),
                self.iconv.is_closed() && old(self).conversion_clean() && !old(
                    self,
                ).is_flushed() ==> decode_ok(
                    self.from_name(),
                    self.iconv.fed(),
                ) && decode_done(self.from_name(), self.iconv.fed()) && enc_clean(
                    self.to_name(),
                    decoded_of(self.from_name(), self.iconv.fed()),
                ),
            decreases self.input@.len(),
        {
            let d = self.input.data();
            let ghost dv = d@;
            match self.iconv.convert(d, MIN_WRITE) {
                Ok((r0, o)) => {
                    proof {
                        lemma_take_skip(dv, r0 as int);
                    }
                    self.input.consume(r0);
                    self.output.append(o.as_slice());
                    proof {
                        assert(self.taken@ =~= self.iconv.fed() + self.input@);
                        assert(self.iconv.produced() =~= self.pushed() + self.output@);
                    }
                },
                Err((r0, o, e)) => {
                    proof {
                        lemma_take_skip(dv, r0 as int);
                    }
                    self.input.consume(r0);
                    self.output.append(o.as_slice());
                    proof {
                        assert(self.taken@ =~= self.iconv.fed() + self.input@);
                        assert(self.iconv.produced() =~= self.pushed() + self.output@);
                    }
                    match e {
                        IconvError::NotSufficientOutput => {
                        },
                        _ => {
                            return Err(e.into_io_error());
                        },
                    }
                },
            }
        }
        loop
            invariant_except_break
                self.wf(),
                self.input@.len() == 0,
                self.from_name() == old(self).from_name(),
                self.to_name() == old(self).to_name(),
                self.taken() == old(self).taken(),
                old(self).conversion_clean() ==> self.iconv.clean(),
                self.iconv.is_closed() && old(self).conversion_clean() && !old(
                    self,
                ).is_flushed() ==> decode_ok(
                    self.from_name(),
                    self.iconv.fed(),
                ) && decode_done(self.from_name(), self.iconv.fed()) && enc_clean(
                    self.to_name(),
                    decoded_of(self.from_name(), self.iconv.fed()),
                ),
            ensures
                self.wf(),
                self.input@.len() == 0,
                self.from_name() == old(self).from_name(),
                self.to_name() == old(self).to_name(),
                self.taken() == old(self).taken(),
                self.iconv.is_closed(),
                self.iconv.produced() == conv_result(
                    self.from_name(),
                    self.to_name(),
                    self.iconv.fed(),
                ),
                old(self).conversion_clean() ==> self.iconv.clean(),
                old(self).conversion_clean() && !old(self).is_flushed() ==> decode_ok(self.from_name(), self.iconv.fed())
                    && decode_done(self.from_name(), self.iconv.fed()) && enc_clean(
                    self.to_name(),
                    decoded_of(self.from_name(), self.iconv.fed()),
                ),
            decreases self.iconv.staged(),
        {
            let empty: Vec<u8> = Vec::new();
            match self.iconv.convert(empty.as_slice(), MIN_WRITE) {
                Ok((_, o)) => {
                    self.output.append(o.as_slice());
                    proof {
                        assert(self.iconv.produced() =~= self.pushed() + self.output@);
                    }
                    break ;
                },
                Err((_, o, e)) => {
                    self.output.append(o.as_slice());
                    proof {
                        assert(self.iconv.produced() =~= self.pushed() + self.output@);
                    }
                    match e {
                        IconvError::NotSufficientOutput => {
                        },
                        _ => {
                            return Err(e.into_io_error());
                        },
                    }
                },
            }
        }
        while !self.output.is_empty()
            invariant
                self.wf(),
                self.input@.len() == 0,
                self.iconv.is_closed(),
                self.iconv.produced() == conv_result(
                    self.from_name(),
                    self.to_name(),
                    self.iconv.fed(),
                ),
                self.from_name() == old(self).from_name(),
                self.to_name() == old(self).to_name(),
                self.taken() == old(self).taken(),
                old(self).conversion_clean() ==> self.iconv.clean(),
                old(self).conversion_clean() && !old(self).is_flushed() ==> decode_ok(self.from_name(), self.iconv.fed())
                    && decode_done(self.from_name(), self.iconv.fed()) && enc_clean(
                    self.to_name(),
                    decoded_of(self.from_name(), self.iconv.fed()),
                ),
            decreases self.output@.len(),
        {
            match self.deliver() {
                Ok(()) => {
                },
                Err(e) => {
                    return Err(e);
                },
            }
        }
        match self.writer.flush_out() {
            Ok(()) => {
                proof {
                    assert(self.iconv.produced() =~= self.pushed());
                    assert(self.taken@ =~= self.iconv.fed());
                }
                Ok(())
            },
            Err(e) => Err(e),
        }
    }
}

/// Push every byte of `data` into the sink, retrying on partial acceptance.
fn push_all<W: ByteSink>(w: &mut W, data: &[u8]) -> (r: Result<(), std::io::Error>)
    requires
        old(w).accounted(),
    ensures
        final(w).accounted(),
        old(w).accepted().is_prefix_of(final(w).accepted()),
        r is Ok ==> final(w).accepted() == old(w).accepted() + data@,
{
    let mut off: usize = 0;
    while off < data.len()
        invariant
            w.accounted(),
            off <= data@.len(),
            w.accepted() == old(w).accepted() + data@.take(off as int),
        decreases data@.len() - off,
    {
        let d = vstd::slice::slice_subrange(data, off, data.len());
        match w.push(d) {
            Ok(k) => {
                proof {
                    assert(d@.take(k as int) =~= data@.subrange(off as int, off + k as int));
                    assert(old(w).accepted() + data@.take(off as int) + data@.subrange(
                        off as int,
                        off + k as int,
                    ) =~= old(w).accepted() + data@.take((off + k) as int));
                }
                off = off + k;
            },
            Err(e) => {
                proof {
                    assert(old(w).accepted().is_prefix_of(w.accepted()));
                }
                return Err(e);
            },
        }
    }
    proof {
        assert(data@.take(off as int) =~= data@);
        assert(old(w).accepted().is_prefix_of(w.accepted()));
    }
    Ok(())
}

/// Drive a full streaming conversion from `input` into `output`, returning
/// the number of converted bytes delivered. On success the sink has received
/// exactly the conversion of everything the source yielded.
pub fn copy<R: ByteSource, W: ByteSink>(
    input: &mut R,
    output: &mut W,
    from_encoding: &str,
    to_encoding: &str,
) -> (r: Result<usize, std::io::Error>)
    requires
        old(input).accounted(),
        old(output).accounted(),
    ensures
        final(input).accounted(),
        final(output).accounted(),
        old(input).yielded().is_prefix_of(final(input).yielded()),
        old(output).accepted().is_prefix_of(final(output).accepted()),
        !(supported(from_encoding@) && encodes(to_encoding@)) ==> r is Err
            && final(input).yielded() == old(input).yielded()
            && final(output).accepted() == old(output).accepted(),
        r is Ok ==> final(output).accepted() == old(output).accepted() + conv_result(
            from_encoding@,
            to_encoding@,
            final(input).yielded().skip(old(input).yielded().len() as int),
        ),
        r is Ok ==> final(input).exhausted(),
        r matches Ok(n) ==> (conv_result(
            from_encoding@,
            to_encoding@,
            final(input).yielded().skip(old(input).yielded().len() as int),
        ).len() <= usize::MAX ==> n == conv_result(
            from_encoding@,
            to_encoding@,
            final(input).yielded().skip(old(input).yielded().len() as int),
        ).len()) && (conv_result(
            from_encoding@,
            to_encoding@,
            final(input).yielded().skip(old(input).yielded().len() as int),
        ).len() > usize::MAX ==> n == usize::MAX),
{
    let mut c = match Iconv::new(from_encoding, to_encoding) {
        Ok(c) => c,
        Err(e) => {
            return Err(e.into_io_error());
        },
    };
    let ghost ibase = input.yielded();
    let ghost obase = output.accepted();
    let mut total: usize = 0;
    loop
        invariant
            c.wf(),
            !c.is_closed(),
            c.from_name() == from_encoding@,
            c.to_name() == to_encoding@,
            input.accounted(),
            output.accounted(),
            supported(from_encoding@) && encodes(to_encoding@),
            ibase == old(input).yielded(),
            obase == old(output).accepted(),
            ibase.is_prefix_of(input.yielded()),
            obase.is_prefix_of(output.accepted()),
            c.fed() == input.yielded().skip(ibase.len() as int),
            c.produced() == output.accepted().skip(obase.len() as int),
            (c.produced().len() <= usize::MAX ==> total == c.produced().len()),
            (c.produced().len() > usize::MAX ==> total == usize::MAX),
        decreases input.remaining(),
    {
        let ghost y0 = input.yielded();
        let chunk = match input.pull(MIN_WRITE) {
            Ok(v) => v,
            Err(e) => {
                return Err(e);
            },
        };
        proof {
            let b = ibase.len() as int;
            lemma_concat_parts(y0, chunk@, b);
            assert(ibase =~= input.yielded().take(b));
        }
        if chunk.len() == 0 {
            loop
                invariant
                    c.wf(),
                    c.from_name() == from_encoding@,
                    c.to_name() == to_encoding@,
                    input.accounted(),
                    output.accounted(),
                    supported(from_encoding@) && encodes(to_encoding@),
                    ibase == old(input).yielded(),
                    obase == old(output).accepted(),
                    ibase.is_prefix_of(input.yielded()),
                    obase.is_prefix_of(output.accepted()),
                    c.fed() == input.yielded().skip(ibase.len() as int),
                    c.produced() == output.accepted().skip(obase.len() as int),
                    (c.produced().len() <= usize::MAX ==> total == c.produced().len()),
                    (c.produced().len() > usize::MAX ==> total == usize::MAX),
                    input.exhausted(),
                decreases c.staged(),
            {
                let empty: Vec<u8> = Vec::new();
                let ghost acc0 = output.accepted();
                match c.convert(empty.as_slice(), MIN_WRITE) {
                    Ok((_, o)) => {
                        match push_all(output, o.as_slice()) {
                            Ok(()) => {
                            },
                            Err(e) => {
                                proof {
                                    lemma_prefix_trans(obase, acc0, output.accepted());
                                }
                                return Err(e);
                            },
                        }
                        total = total.saturating_add(o.len());
                        proof {
                            lemma_concat_parts(acc0, o@, obase.len() as int);
                            assert(obase =~= output.accepted().take(obase.len() as int));
                        }
                        return Ok(total);
                    },
                    Err((_, o, e)) => {
                        match e {
                            IconvError::NotSufficientOutput => {
                                match push_all(output, o.as_slice()) {
                                    Ok(()) => {
                                    },
                                    Err(e2) => {
                                        proof {
                                            lemma_prefix_trans(obase, acc0, output.accepted());
                                        }
                                        return Err(e2);
                                    },
                                }
                                total = total.saturating_add(o.len());
                                proof {
                                    lemma_concat_parts(acc0, o@, obase.len() as int);
                                    assert(obase =~= output.accepted().take(obase.len() as int));
                                }
                            },
                            _ => {
                                return Err(e.into_io_error());
                            },
                        }
                    },
                }
            }
        }
        let mut off: usize = 0;
        while off < chunk.len()
            invariant
                c.wf(),
                !c.is_closed(),
                c.from_name() == from_encoding@,
                c.to_name() == to_encoding@,
                off <= chunk@.len(),
                input.accounted(),
                output.accounted(),
                supported(from_encoding@) && encodes(to_encoding@),
                ibase == old(input).yielded(),
                obase == old(output).accepted(),
                ibase.is_prefix_of(input.yielded()),
                obase.is_prefix_of(output.accepted()),
                c.fed() + chunk@.skip(off as int) == input.yielded().skip(ibase.len() as int),
                c.produced() == output.accepted().skip(obase.len() as int),
                (c.produced().len() <= usize::MAX ==> total == c.produced().len()),
                (c.produced().len() > usize::MAX ==> total == usize::MAX),
            decreases chunk@.len() - off,
        {
            let d = vstd::slice::slice_subrange(chunk.as_slice(), off, chunk.len());
            let ghost dv = d@;
            let ghost acc0 = output.accepted();
            let ghost fed0 = c.fed();
            match c.convert(d, MIN_WRITE) {
                Ok((r0, o)) => {
                    match push_all(output, o.as_slice()) {
                        Ok(()) => {
                        },
                        Err(e) => {
                            proof {
                                lemma_prefix_trans(obase, acc0, output.accepted());
                            }
                            return Err(e);
                        },
                    }
                    total = total.saturating_add(o.len());
                    proof {
                        lemma_take_skip(dv, r0 as int);
                        lemma_concat_parts(acc0, o@, obase.len() as int);
                        assert(obase =~= output.accepted().take(obase.len() as int));
                        assert(fed0 + dv.take(r0 as int) + dv.skip(r0 as int) =~= fed0 + dv);
                    }
                    off = off + r0;
                },
                Err((r0, o, e)) => {
                    match e {
                        IconvError::NotSufficientOutput => {
                            match push_all(output, o.as_slice()) {
                                Ok(()) => {
                                },
                                Err(e2) => {
                                    proof {
                                        lemma_prefix_trans(obase, acc0, output.accepted());
                                    }
                                    return Err(e2);
                                },
                            }
                            total = total.saturating_add(o.len());
                            proof {
                                lemma_take_skip(dv, r0 as int);
                                lemma_concat_parts(acc0, o@, obase.len() as int);
                                assert(obase =~= output.accepted().take(obase.len() as int));
                                assert(fed0 + dv.take(r0 as int) + dv.skip(r0 as int) =~= fed0
                                    + dv);
                            }
                            off = off + r0;
                        },
                        _ => {
                            return Err(e.into_io_error());
                        },
                    }
                },
            }
        }
        proof {
            assert(chunk@.skip(off as int) =~= Seq::<u8>::empty());
            assert(c.fed() + Seq::<u8>::empty() =~= c.fed());
        }
    }
}

} // verus!
