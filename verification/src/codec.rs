//! The echo message codec: the fixed-offset 8-byte header (type, code,
//! checksum, identifier, sequence, all multi-byte fields big-endian)
//! followed by the payload.

use vstd::prelude::*;

verus! {

/// The failure conditions of the library: the destination cannot be resolved
/// for the requested address family (or the family is unsupported), the raw
/// socket cannot be created, a send or receive system call fails, or a
/// buffer handed to the decoder is shorter than the 8-byte header.
#[derive(Clone, Copy, Debug, PartialEq, Eq, Structural)]
pub enum Error {
    Resolution,
    SocketInit,
    Transport,
    MalformedInput,
}

/// The 16-bit value that two big-endian bytes spell.
pub open spec fn be16(hi: u8, lo: u8) -> u16 {
    (hi * 256 + lo) as u16
}

/// The high byte of a 16-bit value written big-endian.
pub open spec fn be_hi(w: u16) -> u8 {
    (w / 256) as u8
}

/// The low byte of a 16-bit value written big-endian.
pub open spec fn be_lo(w: u16) -> u8 {
    (w % 256) as u8
}

/// The wire bytes of an echo message: the 8-byte header followed by the
/// payload.
pub open spec fn spec_encode(typ: u8, cod: u8, sum: u16, idt: u16, seq: u16, dat: Seq<u8>) -> Seq<
    u8,
> {
    seq![typ, cod, be_hi(sum), be_lo(sum), be_hi(idt), be_lo(idt), be_hi(seq), be_lo(seq)] + dat
}

/// The fields an echo message's wire bytes spell, in header order, with the
/// payload last.
pub open spec fn spec_parse(b: Seq<u8>) -> (u8, u8, u16, u16, u16, Seq<u8>)
    recommends
        b.len() >= 8,
{
    (b[0], b[1], be16(b[2], b[3]), be16(b[4], b[5]), be16(b[6], b[7]), b.skip(8))
}

/// A decoded echo reply: the raw header fields as received (the type is not
/// classified and the checksum is not re-validated here) and a copy of the
/// trailing payload.
#[derive(Debug)]
pub struct Response {
    typ: u8,
    cod: u8,
    sum: u16,
    idt: u16,
    seq: u16,
    dat: Vec<u8>,
}

impl View for Response {
    type V = (u8, u8, u16, u16, u16, Seq<u8>);

    closed spec fn view(&self) -> Self::V {
        (self.typ, self.cod, self.sum, self.idt, self.seq, self.dat@)
    }
}

fn word16(hi: u8, lo: u8) -> (r: u16)
    ensures
        r == be16(hi, lo),
{
    (hi as u16) * 256 + (lo as u16)
}

impl Response {
    /// The whole message length never outgrows the address space.
    pub open spec fn wf(&self) -> bool {
        self@.5.len() + 8 <= usize::MAX
    }

    /// Parses the fixed 8-byte header and copies the trailing payload; any
    /// buffer shorter than the header is malformed and is rejected.
    pub fn decode(bytes: &[u8]) -> (r: Result<Response, Error>)
        ensures
            bytes@.len() < 8 ==> r == Err::<Response, Error>(Error::MalformedInput),
            bytes@.len() >= 8 ==> r is Ok && r->Ok_0@ == spec_parse(bytes@) && r->Ok_0.wf(),
    {
        if bytes.len() < 8 {
            return Err(Error::MalformedInput);
        }
        let typ = bytes[0];
        let cod = bytes[1];
        let sum = word16(bytes[2], bytes[3]);
        let idt = word16(bytes[4], bytes[5]);
        let seq = word16(bytes[6], bytes[7]);
        let mut dat: Vec<u8> = Vec::new();
        let mut i: usize = 8;
        while i < bytes.len()
            invariant
                8 <= i <= bytes@.len(),
                bytes@.len() <= usize::MAX,
                dat@ == bytes@.subrange(8, i as int),
            decreases bytes@.len() - i,
        {
            dat.push(bytes[i]);
            proof {
                assert(dat@ =~= bytes@.subrange(8, i as int + 1));
            }
            i = i + 1;
        }
        proof {
            assert(dat@ =~= bytes@.skip(8));
        }
        Ok(Response { typ, cod, sum, idt, seq, dat })
    }

    /// The total decoded length: the 8-byte header plus the payload.
    pub fn len(&self) -> (r: usize)
        requires
            self.wf(),
        ensures
            r == 8 + self@.5.len(),
    {
        8 + self.dat.len()
    }

    /// The raw type field, as received.
    pub fn kind(&self) -> (r: u8)
        ensures
            r == self@.0,
    {
        self.typ
    }

    /// The raw code field, as received.
    pub fn code(&self) -> (r: u8)
        ensures
            r == self@.1,
    {
        self.cod
    }

    /// The checksum field as received; not re-validated by the decoder.
    pub fn checksum(&self) -> (r: u16)
        ensures
            r == self@.2,
    {
        self.sum
    }

    /// The identifier echoed back from the request.
    pub fn ident(&self) -> (r: u16)
        ensures
            r == self@.3,
    {
        self.idt
    }

    /// The sequence number echoed back from the request.
    pub fn sequence(&self) -> (r: u16)
        ensures
            r == self@.4,
    {
        self.seq
    }

    /// The payload: everything past the 8-byte header.
    pub fn data(&self) -> (r: &[u8])
        ensures
            r@ == self@.5,
    {
        self.dat.as_slice()
    }
}

/// Produces the 8-byte header followed by the payload, with the code fixed
/// to 0 and the checksum field holding the placeholder zero; the caller
/// computes the checksum over these bytes and patches it in afterwards.
pub fn encode(typ: u8, idt: u16, seq: u16, dat: &[u8]) -> (v: Vec<u8>)
    requires
        dat@.len() + 8 <= usize::MAX,
    ensures
        v@ == spec_encode(typ, 0, 0, idt, seq, dat@),
        v@.len() == 8 + dat@.len(),
{
    let mut v: Vec<u8> = Vec::new();
    v.push(typ);
    v.push(0);
    v.push(0);
    v.push(0);
    v.push((idt / 256) as u8);
    v.push((idt % 256) as u8);
    v.push((seq / 256) as u8);
    v.push((seq % 256) as u8);
    proof {
        assert(v@ =~= spec_encode(typ, 0, 0, idt, seq, dat@).subrange(0, 8));
    }
    let mut j: usize = 0;
    while j < dat.len()
        invariant
            dat@.len() + 8 <= usize::MAX,
            j <= dat@.len(),
            v@.len() == 8 + j,
            v@ == spec_encode(typ, 0, 0, idt, seq, dat@).subrange(0, 8 + j as int),
        decreases dat@.len() - j,
    {
        v.push(dat[j]);
        proof {
            assert(v@ =~= spec_encode(typ, 0, 0, idt, seq, dat@).subrange(0, 8 + j as int + 1));
        }
        j = j + 1;
    }
    proof {
        let e = spec_encode(typ, 0, 0, idt, seq, dat@);
        assert(e.subrange(0, 8 + dat@.len() as int) =~= e);
    }
    v
}

/// Overwrites bytes 2 and 3 of the buffer with the checksum, big-endian.
pub fn patch_checksum(buf: &mut Vec<u8>, sum: u16)
    requires
        old(buf)@.len() >= 4,
    ensures
        final(buf)@ == old(buf)@.update(2, be_hi(sum)).update(3, be_lo(sum)),
{
    let hi: u8 = (sum / 256) as u8;
    let lo: u8 = (sum % 256) as u8;
    buf[2] = hi;
    buf[3] = lo;
}

/// Law: decoding an encoded message recovers the type, the code, the
/// checksum the caller patched in, the identifier, the sequence number, and
/// the payload bytes, exactly.
pub proof fn lemma_encode_decode(typ: u8, cod: u8, sum: u16, idt: u16, seq: u16, dat: Seq<u8>)
    ensures
        spec_encode(typ, cod, sum, idt, seq, dat).len() == 8 + dat.len(),
        spec_parse(spec_encode(typ, cod, sum, idt, seq, dat)) == (typ, cod, sum, idt, seq, dat),
{
    let b = spec_encode(typ, cod, sum, idt, seq, dat);
    assert(b.skip(8) =~= dat);
    assert(be16(be_hi(sum), be_lo(sum)) == sum);
    assert(be16(be_hi(idt), be_lo(idt)) == idt);
    assert(be16(be_hi(seq), be_lo(seq)) == seq);
}

} // verus!
