//! The echo session state: the identifier fixed for the session's lifetime,
//! the sequence counter advanced once per successful send, the reusable
//! payload buffer, and the receive-side work of stripping the IP header,
//! filtering by identifier, and decoding the reply. The raw socket itself is
//! owned by the caller, which transmits the bytes this module produces and
//! hands back the datagrams it reads.

use vstd::prelude::*;
use crate::checksum::{checksum, spec_checksum};
use crate::codec::{be16, encode, patch_checksum, spec_encode, spec_parse, Error, Response};

verus! {

/// The default payload length of an echo request.
pub const DEFDATALEN: usize = 56;

/// The largest IPv4 header a received datagram can carry.
pub const MAXIPLEN: usize = 60;

/// The largest value the sequence counter reaches before wrapping to 0.
pub const MAXSEQ: u16 = u16::MAX;

/// The address family a session is asked for. Only IPv4 echo is
/// implemented; asking for IPv6 fails fast at construction.
#[derive(Clone, Copy, Debug, PartialEq, Eq, Structural)]
pub enum Version {
    V4,
    V6,
}

/// An echo session: the per-session identifier, the sequence counter, and
/// the payload buffer reused for every request.
#[derive(Debug)]
pub struct Icmp {
    ver: Version,
    typ: u8,
    idt: u16,
    seq: u16,
    dat: Vec<u8>,
}

/// The sequence counter after one successful send: incremented modulo
/// 65536, wrapping to 0 without error.
pub open spec fn next_seq(s: u16) -> u16 {
    (((s as int) + 1) % 0x10000) as u16
}

/// The sequence counter after `n` successful sends.
pub open spec fn iter_seq(s: u16, n: nat) -> u16
    decreases n,
{
    if n == 0 {
        s
    } else {
        next_seq(iter_seq(s, (n - 1) as nat))
    }
}

/// The byte offset of the ICMP message inside a received datagram: an IPv4
/// datagram carries its header length in 32-bit words in the low 4 bits of
/// its first byte, while IPv6 raw delivery has no leading IP header.
pub open spec fn spec_offset(ver: Version, first: u8) -> int {
    match ver {
        Version::V4 => 4 * ((first & 0xf) as int),
        Version::V6 => 0,
    }
}

impl Icmp {
    /// The requested address family.
    pub closed spec fn spec_ver(&self) -> Version {
        self.ver
    }

    /// The message type every request carries.
    pub closed spec fn spec_kind(&self) -> u8 {
        self.typ
    }

    /// The identifier fixed for the life of the session.
    pub closed spec fn spec_ident(&self) -> u16 {
        self.idt
    }

    /// The current sequence counter.
    pub closed spec fn spec_sequence(&self) -> u16 {
        self.seq
    }

    /// The payload buffer's contents.
    pub closed spec fn spec_data(&self) -> Seq<u8> {
        self.dat@
    }

    /// The whole request never outgrows the address space.
    pub open spec fn wf(&self) -> bool {
        self.spec_data().len() + 8 <= usize::MAX
    }

    /// The wire bytes of the next request: the encoding of the current
    /// fields with the checksum computed over the zero-checksum encoding
    /// patched into bytes 2 and 3.
    pub open spec fn spec_packet(&self) -> Seq<u8> {
        let zeroed = spec_encode(
            self.spec_kind(),
            0,
            0,
            self.spec_ident(),
            self.spec_sequence(),
            self.spec_data(),
        );
        spec_encode(
            self.spec_kind(),
            0,
            spec_checksum(zeroed),
            self.spec_ident(),
            self.spec_sequence(),
            self.spec_data(),
        )
    }

    /// Opens a session for the given family and identifier, with a payload
    /// buffer of the requested length (56 bytes if none is given), zeroed,
    /// and the sequence counter at 0. IPv6 echo is unimplemented: asking
    /// for it fails immediately and never falls back to IPv4 behaviour.
    pub fn new(ver: Version, idt: u16, len: Option<usize>) -> (r: Result<Icmp, Error>)
        requires
            len matches Some(l) ==> l + 8 <= usize::MAX,
        ensures
            ver == Version::V6 ==> r == Err::<Icmp, Error>(Error::Resolution),
            ver == Version::V4 ==> r is Ok && ({
                let s = r->Ok_0;
                &&& s.wf()
                &&& s.spec_ver() == ver
                &&& s.spec_kind() == 8
                &&& s.spec_ident() == idt
                &&& s.spec_sequence() == 0
                &&& s.spec_data() == Seq::new(
                    (if len is Some {
                        len->Some_0 as int
                    } else {
                        DEFDATALEN as int
                    }) as nat,
                    |i: int| 0u8,
                )
            }),
    {
        match ver {
            Version::V6 => Err(Error::Resolution),
            Version::V4 => {
                let l: usize = match len {
                    Some(l) => l,
                    None => DEFDATALEN,
                };
                let mut dat: Vec<u8> = Vec::new();
                let mut k: usize = 0;
                while k < l
                    invariant
                        k <= l,
                        dat@.len() == k,
                        forall|i: int| 0 <= i < k ==> dat@[i] == 0u8,
                    decreases l - k,
                {
                    dat.push(0);
                    k = k + 1;
                }
                proof {
                    assert(dat@ =~= Seq::new(l as nat, |i: int| 0u8));
                }
                Ok(Icmp { ver, typ: 8, idt, seq: 0, dat })
            },
        }
    }

    /// Encodes the current fields, computes the checksum over the
    /// zero-checksum bytes, and patches it in: the bytes to hand to the
    /// socket layer. Leaves the session untouched; the caller advances the
    /// sequence counter only once the transmit has succeeded.
    pub fn make_packet(&self) -> (v: Vec<u8>)
        requires
            self.wf(),
        ensures
            v@ == self.spec_packet(),
            v@.len() == 8 + self.spec_data().len(),
    {
        let mut v = encode(self.typ, self.idt, self.seq, self.dat.as_slice());
        let c = checksum(v.as_slice());
        patch_checksum(&mut v, c);
        proof {
            assert(v@ =~= self.spec_packet());
        }
        v
    }

    /// Records one successful send: the sequence counter is incremented
    /// modulo 65536, wrapping to 0 without error; nothing else changes.
    pub fn advance(&mut self)
        ensures
            final(self).spec_sequence() == next_seq(old(self).spec_sequence()),
            final(self).spec_ver() == old(self).spec_ver(),
            final(self).spec_kind() == old(self).spec_kind(),
            final(self).spec_ident() == old(self).spec_ident(),
            final(self).spec_data() == old(self).spec_data(),
    {
        if self.seq == MAXSEQ {
            self.seq = 0;
        } else {
            self.seq = self.seq + 1;
        }
    }

    /// Sifts one received datagram: strips the IP header whose length the
    /// first byte declares, reads the identifier still in place, and either
    /// discards the datagram silently (another session's traffic — the
    /// caller reads the next one), decodes it fully, or rejects a datagram
    /// too short to hold an echo header as malformed.
    pub fn accept(&self, datagram: &[u8]) -> (r: Result<Option<Response>, Error>)
        ensures
            datagram@.len() == 0 ==> r == Err::<Option<Response>, Error>(Error::MalformedInput),
            datagram@.len() > 0 ==> ({
                let off = spec_offset(self.spec_ver(), datagram@[0]);
                &&& (datagram@.len() < off + 8 ==> r == Err::<Option<Response>, Error>(
                    Error::MalformedInput,
                ))
                &&& (datagram@.len() >= off + 8 && be16(datagram@[off + 4], datagram@[off + 5])
                    != self.spec_ident() ==> r == Ok::<Option<Response>, Error>(None))
                &&& (datagram@.len() >= off + 8 && be16(datagram@[off + 4], datagram@[off + 5])
                    == self.spec_ident() ==> r is Ok && r->Ok_0 is Some && (r->Ok_0->Some_0)@
                    == spec_parse(datagram@.skip(off)))
            }),
    {
        if datagram.len() == 0 {
            return Err(Error::MalformedInput);
        }
        let first = datagram[0];
        proof {
            assert(first & 0xf <= 0xf) by (bit_vector);
        }
        let off: usize = match self.ver {
            Version::V4 => 4 * ((first & 0xf) as usize),
            Version::V6 => 0,
        };
        if datagram.len() < off + 8 {
            return Err(Error::MalformedInput);
        }
        let hi = datagram[off + 4];
        let lo = datagram[off + 5];
        let idt = (hi as u16) * 256 + (lo as u16);
        if idt != self.idt {
            return Ok(None);
        }
        let tail: &[u8] = &datagram[off..datagram.len()];
        proof {
            assert(tail@ =~= datagram@.skip(off as int));
        }
        match Response::decode(tail) {
            Ok(resp) => Ok(Some(resp)),
            Err(e) => Err(e),
        }
    }

    /// The payload buffer, readable between sends.
    pub fn data(&self) -> (r: &[u8])
        ensures
            r@ == self.spec_data(),
    {
        self.dat.as_slice()
    }

    /// Overwrites part of the payload buffer: the caller sets the payload
    /// content (a timestamp, say) between sends; the buffer's length never
    /// changes.
    pub fn write_data(&mut self, offset: usize, src: &[u8])
        requires
            offset + src@.len() <= old(self).spec_data().len(),
        ensures
            final(self).spec_data() == old(self).spec_data().subrange(0, offset as int) + src@
                + old(self).spec_data().skip(offset + src@.len()),
            final(self).spec_ver() == old(self).spec_ver(),
            final(self).spec_kind() == old(self).spec_kind(),
            final(self).spec_ident() == old(self).spec_ident(),
            final(self).spec_sequence() == old(self).spec_sequence(),
            final(self).wf() == old(self).wf(),
    {
        let total: usize = self.dat.len();
        let mut j: usize = 0;
        while j < src.len()
            invariant
                j <= src@.len(),
                self.dat@.len() == total,
                offset + src@.len() <= self.dat@.len(),
                self.dat@.len() == old(self).spec_data().len(),
                self.ver == old(self).ver,
                self.typ == old(self).typ,
                self.idt == old(self).idt,
                self.seq == old(self).seq,
                forall|k: int|
                    0 <= k < self.dat@.len() && !(offset <= k < offset + j) ==> self.dat@[k]
                        == old(self).spec_data()[k],
                forall|k: int| 0 <= k < j ==> self.dat@[offset + k] == src@[k],
            decreases src@.len() - j,
        {
            self.dat[offset + j] = src[j];
            j = j + 1;
        }
        proof {
            assert(self.spec_data() =~= old(self).spec_data().subrange(0, offset as int) + src@
                + old(self).spec_data().skip(offset + src@.len()));
        }
    }

    /// The length of an encoded request: the 8-byte header plus the payload.
    pub fn serialize_len(&self) -> (r: usize)
        requires
            self.wf(),
        ensures
            r == 8 + self.spec_data().len(),
    {
        8 + self.dat.len()
    }
}

/// Law: for an IPv4 header of declared length `l` words (4 ≤ `l` ≤ 15)
/// followed by an ICMP message, the offset computed from the first byte is
/// exactly the header's length, so stripping it locates the message.
pub proof fn lemma_header_strip(hdr: Seq<u8>, icmp: Seq<u8>, l: int)
    requires
        4 <= l <= 15,
        hdr.len() == 4 * l,
        hdr[0] & 0xf == l,
    ensures
        spec_offset(Version::V4, (hdr + icmp)[0]) == 4 * l,
        (hdr + icmp).skip(4 * l) == icmp,
{
    assert((hdr + icmp)[0] == hdr[0]);
    assert((hdr + icmp).skip(4 * l) =~= icmp);
}

proof fn lemma_iter_seq_mod(s: u16, n: nat)
    ensures
        iter_seq(s, n) == ((s + n) % 0x10000) as u16,
    decreases n,
{
    if n == 0 {
        assert((s as int) % 0x10000 == s);
    } else {
        lemma_iter_seq_mod(s, (n - 1) as nat);
        let prev = (s + n - 1) as int;
        assert((prev % 0x10000 + 1) % 0x10000 == (prev + 1) % 0x10000) by {
            vstd::arithmetic::div_mod::lemma_add_mod_noop(prev, 1, 0x10000);
        }
    }
}

/// Law: after 65536 successful sends the sequence counter is back where it
/// started; in particular a counter that began at 0 is 0 again.
pub proof fn lemma_sequence_wraparound(s: u16)
    ensures
        iter_seq(s, 0x10000) == s,
{
    lemma_iter_seq_mod(s, 0x10000);
    assert((s + 0x10000) % 0x10000 == s) by {
        vstd::arithmetic::div_mod::lemma_mod_multiples_vanish(1, s as int, 0x10000);
    }
}

} // verus!
