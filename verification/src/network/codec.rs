//! The stateful per-connection transport codec: length-delimited framing,
//! threshold-gated compression, and symmetric stream-cipher encryption,
//! composed in a fixed order around whole frames.
use crate::primitives::PacketStage;
use crate::types::{Error, read_var_int, spec_read_var_int, var_u32_bytes, write_var_int};
use cfb8::cipher::{AsyncStreamCipher, NewCipher};
use vstd::prelude::*;

verus! {

/// Which end of the connection this codec serves.
pub trait Side: Sized {

}

/// The server's end of a connection.
pub struct ServerSide;

impl Side for ServerSide {

}

/// The client's end of a connection.
pub struct ClientSide;

impl Side for ClientSide {

}

/// The compressed bytes that the compression backend produces for an
/// input, at this codec's fixed settings; a name for what the outside
/// compressor returns.
pub uninterp spec fn deflate_of(s: Seq<u8>) -> Seq<u8>;

/// What the decompression backend reconstructs from a compressed stream,
/// if it accepts it; a name for what the outside decompressor returns.
pub uninterp spec fn inflate_of(s: Seq<u8>) -> Option<Seq<u8>>;

/// Relies on `miniz_oxide::deflate::compress_to_vec_zlib`: the output
/// depends on the input bytes alone, and zlib compression is lossless, so
/// decompressing the output yields the input back.
#[verifier::external_body]
fn deflate_bytes(data: &[u8]) -> (r: Vec<u8>)
    ensures
        r@ == deflate_of(data@),
        inflate_of(r@) == Some(data@),
{
    miniz_oxide::deflate::compress_to_vec_zlib(data, 6)
}

/// Relies on `miniz_oxide::inflate::decompress_to_vec_zlib`: whether it
/// accepts the stream and what it reconstructs depend on the input alone.
#[verifier::external_body]
fn inflate_bytes(data: &[u8]) -> (r: Result<Vec<u8>, Error>)
    ensures
        match r {
            Ok(v) => inflate_of(data@) == Some(v@),
            Err(e) => e == Error::Malformed && inflate_of(data@) is None,
        },
{
    match miniz_oxide::inflate::decompress_to_vec_zlib(data) {
        Ok(v) => Ok(v),
        Err(_) => Err(Error::Malformed),
    }
}

/// The compression layer's frame body: a payload at or below the threshold
/// travels behind a zero marker unchanged; a larger one travels compressed
/// behind its decompressed length.
pub open spec fn spec_compress_frame(payload: Seq<u8>, threshold: int) -> Result<Seq<u8>, Error> {
    if payload.len() > 0x7FFF_FFFF {
        Err(Error::ValueTooLarge)
    } else if payload.len() > threshold {
        Ok(var_u32_bytes(payload.len() as u32) + deflate_of(payload))
    } else {
        Ok(var_u32_bytes(0) + payload)
    }
}

/// What the compression layer reconstructs from a frame body: a leading
/// zero marker passes the rest through; a nonzero marker names the exact
/// decompressed length the rest must inflate to.
pub open spec fn spec_decompress_frame(frame: Seq<u8>) -> Result<Seq<u8>, Error> {
    match spec_read_var_int(frame, 0) {
        Err(_) => Err(Error::Malformed),
        Ok((dl, p)) => if dl < 0 {
            Err(Error::Malformed)
        } else if dl == 0 {
            Ok(frame.skip(p))
        } else {
            match inflate_of(frame.skip(p)) {
                Some(out) => if out.len() == dl {
                    Ok(out)
                } else {
                    Err(Error::Malformed)
                },
                None => Err(Error::Malformed),
            }
        },
    }
}

/// The compression stage of one connection direction: payloads above the
/// threshold are compressed, smaller ones pass through marked.
#[derive(Debug, Clone, Copy, PartialEq, Eq, Structural)]
pub struct Compressor {
    pub compression_threshold: usize,
}

impl Compressor {
    /// A compressor with the protocol's customary threshold.
    pub fn new() -> (r: Self)
        ensures
            r.compression_threshold == 256,
    {
        Compressor { compression_threshold: 256 }
    }

    /// Builds the frame body for a payload. Decompressing the result
    /// always yields the payload back, whichever side of the threshold it
    /// falls on.
    pub fn compress(&self, payload: &[u8]) -> (r: Result<Vec<u8>, Error>)
        ensures
            match r {
                Ok(body) => spec_compress_frame(payload@, self.compression_threshold as int)
                    == Ok::<Seq<u8>, Error>(body@) && spec_decompress_frame(body@) == Ok::<
                    Seq<u8>,
                    Error,
                >(payload@),
                Err(e) => spec_compress_frame(payload@, self.compression_threshold as int)
                    == Err::<Seq<u8>, _>(e),
            },
    {
        if payload.len() > 0x7FFF_FFFF {
            return Err(Error::ValueTooLarge);
        }
        let plen: usize = payload.len();
        proof {
            assert((plen as i32) as u32 == plen as u32) by (bit_vector)
                requires
                    plen <= 0x7FFF_FFFF,
            ;
        }
        let mut out: Vec<u8> = Vec::new();
        if payload.len() > self.compression_threshold {
            write_var_int(&mut out, payload.len() as i32);
            let mut deflated = deflate_bytes(payload);
            let ghost hdr = out@;
            let ghost dv = deflated@;
            out.append(&mut deflated);
            proof {
                assert(out@ =~= hdr + dv);
                assert(hdr =~= var_u32_bytes(payload@.len() as u32));
                assert(out@.subrange(0, hdr.len() as int) =~= hdr);
                crate::types::lemma_var_int_round_trip(out@, 0, payload@.len() as i32);
                assert(out@.skip(var_u32_bytes(payload@.len() as u32).len() as int) =~= dv);
            }
            Ok(out)
        } else {
            write_var_int(&mut out, 0);
            let mut body = crate::types::copy_range(payload, 0, payload.len());
            let ghost hdr = out@;
            let ghost bv = body@;
            out.append(&mut body);
            proof {
                assert(out@ =~= hdr + bv);
                assert(bv =~= payload@);
                assert(hdr =~= var_u32_bytes(0));
                assert(out@.subrange(0, var_u32_bytes(0).len() as int) =~= var_u32_bytes(0));
                crate::types::lemma_var_int_round_trip(out@, 0, 0);
                assert(out@.skip(var_u32_bytes(0).len() as int) =~= payload@);
            }
            Ok(out)
        }
    }

    /// Reconstructs a payload from a frame body.
    pub fn decompress(&self, body: &[u8]) -> (r: Result<Vec<u8>, Error>)
        ensures
            match r {
                Ok(payload) => spec_decompress_frame(body@) == Ok::<Seq<u8>, Error>(payload@),
                Err(e) => spec_decompress_frame(body@) == Err::<Seq<u8>, _>(e),
            },
    {
        let (dl, p) = match read_var_int(body, 0) {
            Ok(x) => x,
            Err(_) => {
                return Err(Error::Malformed);
            },
        };
        if dl < 0 {
            return Err(Error::Malformed);
        }
        if dl == 0 {
            let rest = crate::types::copy_range(body, p, body.len());
            proof {
                assert(rest@ =~= body@.skip(p as int));
            }
            return Ok(rest);
        }
        let rest = crate::types::copy_range(body, p, body.len());
        proof {
            assert(rest@ =~= body@.skip(p as int));
        }
        match inflate_bytes(rest.as_slice()) {
            Ok(out) => {
                if out.len() as u64 == dl as u64 {
                    Ok(out)
                } else {
                    Err(Error::Malformed)
                }
            },
            Err(e) => Err(e),
        }
    }
}

/// Compression threshold law, pass-through side: a payload within the
/// threshold is sent behind the zero marker, byte for byte, and decoding
/// that form yields it back.
pub proof fn lemma_compress_below_threshold(payload: Seq<u8>, threshold: int)
    requires
        0 <= threshold,
        payload.len() <= threshold,
        payload.len() <= 0x7FFF_FFFF,
    ensures
        spec_compress_frame(payload, threshold) == Ok::<Seq<u8>, Error>(
            var_u32_bytes(0) + payload,
        ),
        spec_decompress_frame(var_u32_bytes(0) + payload) == Ok::<Seq<u8>, Error>(payload),
{
    let frame = var_u32_bytes(0) + payload;
    crate::types::lemma_var_int_round_trip(frame, 0, 0);
    assert(frame.subrange(0, var_u32_bytes(0).len() as int) =~= var_u32_bytes(0));
    assert(frame.skip(var_u32_bytes(0).len() as int) =~= payload);
}

/// Compression threshold law, compressed side: a payload above the
/// threshold is sent compressed behind a marker that equals the original
/// size. That decoding this form yields the payload back is carried by the
/// `ensures` of [`Compressor::compress`], since it rests on the
/// compression backend's losslessness.
pub proof fn lemma_compress_above_threshold(payload: Seq<u8>, threshold: int)
    requires
        0 <= threshold < payload.len() <= 0x7FFF_FFFF,
    ensures
        spec_compress_frame(payload, threshold) == Ok::<Seq<u8>, Error>(
            var_u32_bytes(payload.len() as u32) + deflate_of(payload),
        ),
        spec_read_var_int(var_u32_bytes(payload.len() as u32) + deflate_of(payload), 0) matches Ok(
            (marker, _),
        ) && marker == payload.len(),
{
    let n32 = payload.len() as u32;
    let body = var_u32_bytes(n32) + deflate_of(payload);
    crate::types::lemma_var_u32_bytes_len(n32);
    assert(body.subrange(0, var_u32_bytes(n32).len() as int) =~= var_u32_bytes(n32));
    crate::types::lemma_var_int_round_trip(body, 0, n32 as i32);
    assert((n32 as i32) as int == n32 as int) by (bit_vector)
        requires
            n32 <= 0x7FFF_FFFF,
    ;
}

/// The encryption stage of one connection direction: a self-synchronizing
/// stream cipher applied in place, with a watermark of how many buffered
/// inbound bytes are already decrypted so partial reads never decrypt the
/// same bytes twice.
pub struct Encryption {
    pub crypter: CipherBox,
    pub decrypt_index: usize,
}

/// Holds the outside stream cipher. The verifier refuses to declare the
/// cipher type itself (its generic parameter carries outside trait
/// bounds), so this box hides it whole; everything the codec relies on is
/// stated on the wrappers below.
#[verifier::external_body]
pub struct CipherBox {
    inner: cfb8::Cfb8<aes::Aes128>,
}

/// Relies on `cfb8::Cfb8::<aes::Aes128>::new_from_slices`: a cipher is
/// built exactly from a sixteen-byte key and a sixteen-byte nonce.
#[verifier::external_body]
fn new_cipher(key: &[u8], iv: &[u8]) -> (r: Option<CipherBox>)
    ensures
        r is Some <==> (key@.len() == 16 && iv@.len() == 16),
{
    match cfb8::Cfb8::new_from_slices(key, iv) {
        Ok(c) => Some(CipherBox { inner: c }),
        Err(_) => None,
    }
}

/// Relies on `cfb8::Cfb8::encrypt` (8-bit cipher feedback): one output
/// byte per input byte, in place, advancing the cipher state.
#[verifier::external_body]
fn cipher_encrypt(c: &mut CipherBox, data: &mut Vec<u8>, from: usize)
    requires
        from <= old(data)@.len(),
    ensures
        final(data)@.len() == old(data)@.len(),
        final(data)@.subrange(0, from as int) == old(data)@.subrange(0, from as int),
{
    c.inner.encrypt(&mut data[from..]);
}

/// Relies on `cfb8::Cfb8::decrypt` (8-bit cipher feedback): one output
/// byte per input byte, in place, advancing the cipher state.
#[verifier::external_body]
fn cipher_decrypt(c: &mut CipherBox, data: &mut Vec<u8>, from: usize)
    requires
        from <= old(data)@.len(),
    ensures
        final(data)@.len() == old(data)@.len(),
        final(data)@.subrange(0, from as int) == old(data)@.subrange(0, from as int),
{
    c.inner.decrypt(&mut data[from..]);
}

impl Encryption {
    /// A cipher over a sixteen-byte key and nonce, with nothing decrypted
    /// yet.
    pub fn new(key: &[u8], iv: &[u8]) -> (r: Option<Encryption>)
        ensures
            r is Some <==> (key@.len() == 16 && iv@.len() == 16),
            r matches Some(e) ==> e.decrypt_index == 0,
    {
        match new_cipher(key, iv) {
            Some(c) => Some(Encryption { crypter: c, decrypt_index: 0 }),
            None => None,
        }
    }
}

/// The two states of the length delimiter: waiting for a frame length, or
/// waiting for that many body bytes.
#[derive(Debug, Clone, Copy, PartialEq, Eq, Structural)]
pub enum DelimiterState {
    Head,
    Data(usize),
}

/// The framing stage: splits a byte stream into length-prefixed frames,
/// tolerating arbitrarily chunked input.
#[derive(Debug, Clone, Copy, PartialEq, Eq, Structural)]
pub struct Delimiter {
    pub max_length: usize,
    pub state: DelimiterState,
}

/// One attempt to take a frame off the buffered bytes: the new delimiter
/// state, the bytes that remain buffered, and the extracted frame if one
/// is complete. Too few buffered bytes are never an error, only "no frame
/// yet"; a frame length above the maximum is fatal.
pub open spec fn spec_frame_step(state: DelimiterState, buffer: Seq<u8>, max: int) -> Result<
    (DelimiterState, Seq<u8>, Option<Seq<u8>>),
    Error,
> {
    match state {
        DelimiterState::Head => match spec_read_var_int(buffer, 0) {
            Err(Error::NotEnoughBytes) => Ok((DelimiterState::Head, buffer, None)),
            Err(e) => Err(e),
            Ok((len, p)) => if len < 0 || len > max {
                Err(Error::ValueTooLarge)
            } else {
                let rest = buffer.skip(p);
                if rest.len() < len {
                    Ok((DelimiterState::Data(len as usize), rest, None))
                } else {
                    Ok((DelimiterState::Head, rest.skip(len as int), Some(rest.take(len as int))))
                }
            },
        },
        DelimiterState::Data(n) => if buffer.len() < n {
            Ok((DelimiterState::Data(n), buffer, None))
        } else {
            Ok((DelimiterState::Head, buffer.skip(n as int), Some(buffer.take(n as int))))
        },
    }
}

/// Whatever the buffered bytes hold, a successful frame step never grows
/// the buffer, leaves the machine in the length state exactly when a
/// frame came out or the length is still unknown, and leaves it waiting
/// for a body only with fewer bytes than that body needs.
pub proof fn lemma_frame_step_shape(state: DelimiterState, buffer: Seq<u8>, max: int)
    ensures
        spec_frame_step(state, buffer, max) matches Ok((st, buf2, of)) ==> ({
            &&& buf2.len() <= buffer.len()
            &&& (of is Some ==> st == DelimiterState::Head)
            &&& (st matches DelimiterState::Data(n) ==> buf2.len() < n)
        }),
{
    match state {
        DelimiterState::Head => {
            match spec_read_var_int(buffer, 0) {
                Ok((len, p)) => {
                    match crate::types::spec_read_var_u32(buffer, 0, 0, 0) {
                        Ok((n, e)) => {
                            crate::types::lemma_var_u32_read_bounds(buffer, 0, 0, 0, n, e);
                        },
                        Err(_) => {},
                    }
                },
                Err(_) => {},
            }
        },
        DelimiterState::Data(_) => {},
    }
}

impl Delimiter {
    /// A delimiter that waits for a frame length and refuses frames longer
    /// than `max_length`.
    pub fn new(max_length: usize) -> (r: Self)
        ensures
            r.max_length == max_length,
            r.state == DelimiterState::Head,
    {
        Delimiter { max_length, state: DelimiterState::Head }
    }

    /// Attempts to read a frame length off the front of the buffer:
    /// nothing is consumed, and too few bytes is "no length yet".
    pub fn read_head(&self, src: &Vec<u8>) -> (r: Result<Option<(usize, usize)>, Error>)
        ensures
            match r {
                Ok(Some((len, p))) => spec_read_var_int(src@, 0) == Ok::<_, Error>(
                    (len as i32, p as int),
                ) && len <= self.max_length && p <= src@.len(),
                Ok(None) => spec_read_var_int(src@, 0) == Err::<(i32, int), _>(
                    Error::NotEnoughBytes,
                ),
                Err(e) => e != Error::NotEnoughBytes && ({
                    ||| spec_read_var_int(src@, 0) == Err::<(i32, int), _>(e)
                    ||| (e == Error::ValueTooLarge && (spec_read_var_int(src@, 0) matches Ok(
                        (l, _),
                    ) && (l < 0 || l > self.max_length)))
                }),
            },
    {
        match read_var_int(src.as_slice(), 0) {
            Ok((len, p)) => {
                if len < 0 {
                    return Err(Error::ValueTooLarge);
                }
                if len as usize > self.max_length {
                    return Err(Error::ValueTooLarge);
                }
                Ok(Some((len as usize, p)))
            },
            Err(Error::NotEnoughBytes) => Ok(None),
            Err(e) => Err(e),
        }
    }

    /// Feeds on the buffered bytes: consumes exactly one frame when its
    /// bytes are all present, else consumes at most the length prefix and
    /// reports "no frame yet".
    pub fn advance(&mut self, src: &mut Vec<u8>) -> (r: Result<Option<Vec<u8>>, Error>)
        ensures
            final(self).max_length == old(self).max_length,
            match r {
                Ok(Some(v)) => spec_frame_step(
                    old(self).state,
                    old(src)@,
                    old(self).max_length as int,
                ) == Ok::<_, Error>((final(self).state, final(src)@, Some(v@))),
                Ok(None) => spec_frame_step(
                    old(self).state,
                    old(src)@,
                    old(self).max_length as int,
                ) == Ok::<_, Error>((final(self).state, final(src)@, Option::<Seq<u8>>::None)),
                Err(e) => spec_frame_step(old(self).state, old(src)@, old(self).max_length as int)
                    == Err::<(DelimiterState, Seq<u8>, Option<Seq<u8>>), _>(e) && final(self).state
                    == old(self).state && final(src)@ == old(src)@,
            },
    {
        let n: usize = match self.state {
            DelimiterState::Head => {
                match read_var_int(src.as_slice(), 0) {
                    Err(Error::NotEnoughBytes) => {
                        return Ok(None);
                    },
                    Err(e) => {
                        return Err(e);
                    },
                    Ok((len, p)) => {
                        if len < 0 {
                            return Err(Error::ValueTooLarge);
                        }
                        let len_u = len as usize;
                        if len_u > self.max_length {
                            return Err(Error::ValueTooLarge);
                        }
                        let rest = src.split_off(p);
                        *src = rest;
                        proof {
                            assert(src@ =~= old(src)@.skip(p as int));
                        }
                        self.state = DelimiterState::Data(len_u);
                        len_u
                    },
                }
            },
            DelimiterState::Data(n) => n,
        };
        if src.len() < n {
            return Ok(None);
        }
        let ghost buf0 = src@;
        let tail = src.split_off(n);
        let frame = src.split_off(0);
        *src = tail;
        self.state = DelimiterState::Head;
        proof {
            assert(frame@ =~= buf0.take(n as int));
            assert(src@ =~= buf0.skip(n as int));
        }
        Ok(Some(frame))
    }
}

/// The per-connection transport codec for one direction of travel:
/// decryption, framing and decompression on receive, their mirror on send.
/// The stage in `stage` only selects which packets are valid; replacing it
/// preserves the compression and encryption state.
pub struct PacketCodec {
    pub stage: PacketStage,
    pub compressor: Option<Compressor>,
    pub encryption: Option<Encryption>,
    pub delimiter: Delimiter,
}

impl PacketCodec {
    /// A codec in the handshaking stage with neither compression nor
    /// encryption enabled.
    pub fn new(delimiter: Delimiter) -> (r: Self)
        ensures
            r.stage == PacketStage::Handshaking,
            r.compressor is None,
            r.encryption is None,
            r.delimiter == delimiter,
    {
        PacketCodec { stage: PacketStage::Handshaking, compressor: None, encryption: None, delimiter }
    }

    /// Moves the connection to a later stage; the compression, encryption
    /// and framing state survive the transition.
    pub fn set_stage(&mut self, stage: PacketStage)
        ensures
            final(self).stage == stage,
            final(self).delimiter == old(self).delimiter,
            final(self).compressor == old(self).compressor,
            final(self).encryption is Some <==> old(self).encryption is Some,
    {
        self.stage = stage;
    }

    /// Turns compression on, once, with the given threshold.
    pub fn enable_compression(&mut self, threshold: usize)
        ensures
            final(self).compressor == Some(Compressor { compression_threshold: threshold }),
            final(self).stage == old(self).stage,
            final(self).delimiter == old(self).delimiter,
            final(self).encryption is Some <==> old(self).encryption is Some,
    {
        self.compressor = Some(Compressor { compression_threshold: threshold });
    }

    /// Turns encryption on, once, from a sixteen-byte key and nonce.
    pub fn enable_encryption(&mut self, key: &[u8], iv: &[u8]) -> (r: Result<(), Error>)
        ensures
            r is Ok <==> (key@.len() == 16 && iv@.len() == 16),
            r is Ok ==> final(self).encryption is Some,
            r is Err ==> (final(self).encryption is Some <==> old(self).encryption is Some),
            final(self).stage == old(self).stage,
            final(self).delimiter == old(self).delimiter,
            final(self).compressor == old(self).compressor,
    {
        match Encryption::new(key, iv) {
            Some(e) => {
                self.encryption = Some(e);
                Ok(())
            },
            None => Err(Error::ValueTooLarge),
        }
    }

    /// Feeds on the accumulated inbound bytes: decrypts what newly
    /// arrived, takes at most one frame off, and undoes compression. With
    /// encryption off, the result is exactly the frame step followed by
    /// the compression layer; with it on, the cipher's output decides.
    pub fn decode(&mut self, src: &mut Vec<u8>) -> (r: Result<Option<Vec<u8>>, Error>)
        ensures
            final(self).delimiter.max_length == old(self).delimiter.max_length,
            final(self).compressor == old(self).compressor,
            final(self).stage == old(self).stage,
            final(self).encryption is Some <==> old(self).encryption is Some,
            final(src)@.len() <= old(src)@.len(),
            r matches Ok(Some(_)) ==> final(self).delimiter.state == DelimiterState::Head,
            r is Ok ==> (final(self).delimiter.state matches DelimiterState::Data(n)
                ==> final(src)@.len() < n),
            old(self).encryption is None ==> match spec_frame_step(
                old(self).delimiter.state,
                old(src)@,
                old(self).delimiter.max_length as int,
            ) {
                Ok((st, buf, of)) => final(self).delimiter.state == st && final(src)@ == buf
                    && match of {
                    Some(f) => match old(self).compressor {
                        None => r matches Ok(Some(v)) && v@ == f,
                        Some(c) => match spec_decompress_frame(f) {
                            Ok(pl) => r matches Ok(Some(v)) && v@ == pl,
                            Err(e) => r == Err::<Option<Vec<u8>>, Error>(e),
                        },
                    },
                    None => r == Ok::<_, Error>(Option::<Vec<u8>>::None),
                },
                Err(e) => r == Err::<Option<Vec<u8>>, Error>(e),
            },
    {
        match &mut self.encryption {
            Some(enc) => {
                let from = if enc.decrypt_index <= src.len() {
                    enc.decrypt_index
                } else {
                    0
                };
                cipher_decrypt(&mut enc.crypter, src, from);
            },
            None => {},
        }
        let ghost decrypted = src@;
        let ghost state0 = self.delimiter.state;
        let ghost max0 = self.delimiter.max_length;
        let stepped = self.delimiter.advance(src);
        proof {
            lemma_frame_step_shape(state0, decrypted, max0 as int);
        }
        match &mut self.encryption {
            Some(enc) => {
                enc.decrypt_index = src.len();
            },
            None => {},
        }
        let frame = match stepped {
            Ok(Some(f)) => f,
            Ok(None) => {
                return Ok(None);
            },
            Err(e) => {
                return Err(e);
            },
        };
        match &self.compressor {
            None => Ok(Some(frame)),
            Some(c) => match c.decompress(frame.as_slice()) {
                Ok(payload) => Ok(Some(payload)),
                Err(e) => Err(e),
            },
        }
    }

    /// The full outbound wire bytes of one payload: the compression
    /// layer's body if compression is on, behind a frame length prefix,
    /// the whole optionally encrypted.
    pub open spec fn spec_encode_frame(payload: Seq<u8>, threshold: Option<int>) -> Result<
        Seq<u8>,
        Error,
    > {
        let body = match threshold {
            None => Ok(payload),
            Some(t) => spec_compress_frame(payload, t),
        };
        match body {
            Ok(b) => if b.len() > 0x7FFF_FFFF {
                Err(Error::ValueTooLarge)
            } else {
                Ok(var_u32_bytes(b.len() as u32) + b)
            },
            Err(e) => Err(e),
        }
    }

    /// Builds the outbound bytes of one payload. With encryption off the
    /// result is exactly the framed, optionally compressed payload; with
    /// it on, the bytes are the cipher's output of that, same length.
    pub fn encode(&mut self, payload: &Vec<u8>) -> (r: Result<Vec<u8>, Error>)
        ensures
            ({
                let threshold = match old(self).compressor {
                    None => Option::<int>::None,
                    Some(c) => Some(c.compression_threshold as int),
                };
                match r {
                    Ok(v) => Self::spec_encode_frame(payload@, threshold) matches Ok(w) && (old(
                        self,
                    ).encryption is None ==> v@ == w) && v@.len() == w.len(),
                    Err(e) => Self::spec_encode_frame(payload@, threshold) == Err::<Seq<u8>, _>(e),
                }
            }),
            r is Ok ==> match old(self).compressor {
                Some(c) => ({
                    &&& spec_compress_frame(payload@, c.compression_threshold as int) matches Ok(
                        body,
                    )
                    &&& spec_decompress_frame(body) == Ok::<Seq<u8>, Error>(payload@)
                }),
                None => true,
            },
            final(self).delimiter == old(self).delimiter,
            final(self).compressor == old(self).compressor,
            final(self).stage == old(self).stage,
    {
        let body: Vec<u8> = match &self.compressor {
            None => payload.clone(),
            Some(c) => {
                match c.compress(payload.as_slice()) {
                    Ok(b) => b,
                    Err(e) => {
                        return Err(e);
                    },
                }
            },
        };
        if body.len() > 0x7FFF_FFFF {
            return Err(Error::ValueTooLarge);
        }
        let mut out: Vec<u8> = Vec::new();
        write_var_int(&mut out, body.len() as i32);
        let ghost hdr = out@;
        let ghost bv = body@;
        let blen: usize = body.len();
        proof {
            assert((blen as i32) as u32 == blen as u32) by (bit_vector)
                requires
                    blen <= 0x7FFF_FFFF,
            ;
        }
        let mut body_mut = body;
        out.append(&mut body_mut);
        proof {
            assert(out@ =~= hdr + bv);
            assert(Seq::<u8>::empty() + hdr =~= hdr);
        }
        match &mut self.encryption {
            Some(enc) => {
                cipher_encrypt(&mut enc.crypter, &mut out, 0);
                proof {
                    assert(out@.len() == (hdr + bv).len());
                }
                Ok(out)
            },
            None => Ok(out),
        }
    }
}

/// The wire bytes of one frame: the payload behind its VarInt length.
pub open spec fn spec_frame_bytes(p: Seq<u8>) -> Seq<u8> {
    var_u32_bytes(p.len() as u32) + p
}

/// The delimiter configuration after any prefix of one frame's bytes has
/// been fed and stepped: waiting for the length while the header is
/// incomplete, then waiting for the body with the header consumed.
pub open spec fn spec_frame_config(p: Seq<u8>, k: int) -> (DelimiterState, Seq<u8>) {
    let hdr = var_u32_bytes(p.len() as u32);
    if k < hdr.len() {
        (DelimiterState::Head, spec_frame_bytes(p).take(k))
    } else {
        (DelimiterState::Data(p.len() as usize), spec_frame_bytes(p).subrange(hdr.len() as int, k))
    }
}

/// Frame round trip under arbitrary chunking (law): however the bytes of
/// one framed payload are cut into chunks, stepping the delimiter after
/// each chunk yields no error and no frame while bytes are still missing,
/// and yields exactly the payload when the last byte arrives, leaving the
/// delimiter reset for the next frame. The chunk here is the frame's bytes
/// from `k` to `k2`; the delimiter stands in the configuration reached
/// after the first `k` bytes.
pub proof fn lemma_frame_chunking(p: Seq<u8>, max: int, k: int, k2: int)
    requires
        0 <= p.len() <= max,
        p.len() <= 0x7FFF_FFFF,
        0 <= k <= k2 <= spec_frame_bytes(p).len(),
    ensures
        ({
            let frame = spec_frame_bytes(p);
            let chunk = frame.subrange(k, k2);
            let cfg = spec_frame_config(p, k);
            if k2 < frame.len() {
                spec_frame_step(cfg.0, cfg.1 + chunk, max) == Ok::<_, Error>(
                    (spec_frame_config(p, k2).0, spec_frame_config(p, k2).1, Option::<
                        Seq<u8>,
                    >::None),
                )
            } else {
                spec_frame_step(cfg.0, cfg.1 + chunk, max) == Ok::<_, Error>(
                    (DelimiterState::Head, Seq::<u8>::empty(), Some(p)),
                )
            }
        }),
{
    let n32 = p.len() as u32;
    let hdr = var_u32_bytes(n32);
    let hl = hdr.len() as int;
    let frame = spec_frame_bytes(p);
    let chunk = frame.subrange(k, k2);
    let cfg = spec_frame_config(p, k);
    crate::types::lemma_var_u32_bytes_len(n32);
    crate::types::lemma_var_u32_bytes_shape(n32);
    assert((n32 as i32) as int == n32 as int) by (bit_vector)
        requires
            n32 <= 0x7FFF_FFFF,
    ;
    assert(frame.len() == hl + p.len());
    assert(forall|j: int| 0 <= j < hl ==> frame[j] == hdr[j]);
    if k < hl {
        assert(cfg.1 + chunk =~= frame.take(k2));
        let buffer = frame.take(k2);
        if k2 < hl {
            assert(forall|j: int| 0 <= j < buffer.len() ==> (#[trigger] buffer[j]) >= 0x80);
            crate::types::lemma_var_u32_read_runs_out(buffer, 0, 0, 0);
            assert(spec_frame_config(p, k2).1 =~= buffer);
        } else {
            assert(buffer.subrange(0, hl) =~= hdr);
            crate::types::lemma_var_int_round_trip(buffer, 0, n32 as i32);
            let rest = buffer.skip(hl);
            assert(rest =~= frame.subrange(hl, k2));
            if k2 < frame.len() {
                assert(rest.len() < p.len());
                assert(spec_frame_config(p, k2).1 =~= rest);
            } else {
                assert(rest =~= p);
                assert(rest.skip(p.len() as int) =~= Seq::<u8>::empty());
                assert(rest.take(p.len() as int) =~= p);
            }
        }
    } else {
        assert(cfg.0 == DelimiterState::Data(p.len() as usize));
        assert(cfg.1 + chunk =~= frame.subrange(hl, k2));
        let buffer = frame.subrange(hl, k2);
        if k2 < frame.len() {
            assert(buffer.len() < p.len());
            assert(spec_frame_config(p, k2).1 =~= buffer);
        } else {
            assert(buffer =~= p);
            assert(buffer.skip(p.len() as int) =~= Seq::<u8>::empty());
            assert(buffer.take(p.len() as int) =~= p);
        }
    }
}

/// Frame round trip, one shot (law): a stream holding exactly one framed
/// payload within the size limit de-frames to that payload, and the
/// delimiter is reset afterwards.
pub proof fn lemma_frame_round_trip(p: Seq<u8>, max: int)
    requires
        0 <= p.len() <= max,
        p.len() <= 0x7FFF_FFFF,
    ensures
        spec_frame_step(DelimiterState::Head, spec_frame_bytes(p), max) == Ok::<_, Error>(
            (DelimiterState::Head, Seq::<u8>::empty(), Some(p)),
        ),
{
    let frame = spec_frame_bytes(p);
    lemma_frame_chunking(p, max, 0, frame.len() as int);
    assert(spec_frame_config(p, 0).1 =~= Seq::<u8>::empty());
    assert(spec_frame_config(p, 0).1 + frame.subrange(0, frame.len() as int) =~= frame);
    crate::types::lemma_var_u32_bytes_len(p.len() as u32);
}

} // verus!
