//! The library's end of the network-interface device.
//!
//! The library does no I/O. Whoever owns the real device feeds what it
//! read into a [`DeviceIo`] and takes from it what is to be written; the
//! library reads and writes there.

use crate::error::IoError;
use crate::ip_packet::{ip_version, IpVersion, MutableIpPacket};
use std::collections::VecDeque;
use vstd::prelude::*;
use vstd::slice::slice_subrange;

verus! {

/// What a poll finds: a value, or nothing yet.
#[derive(Debug)]
pub enum Poll<T> {
    Ready(T),
    Pending,
}

/// An IP packet on its way to the device.
#[derive(Debug)]
pub enum Packet {
    Ipv4(Vec<u8>),
    Ipv6(Vec<u8>),
}

impl View for Packet {
    type V = (IpVersion, Seq<u8>);

    open spec fn view(&self) -> (IpVersion, Seq<u8>) {
        match self {
            Packet::Ipv4(b) => (IpVersion::V4, b@),
            Packet::Ipv6(b) => (IpVersion::V6, b@),
        }
    }
}

impl Packet {
    pub fn len(&self) -> (n: usize)
        ensures
            n == self@.1.len(),
    {
        match self {
            Packet::Ipv4(b) => b.len(),
            Packet::Ipv6(b) => b.len(),
        }
    }
}

/// What the device handed over at one read: bytes, or a failure. No
/// bytes mean that the device has come to its end.
pub type Reading = Result<Vec<u8>, IoError>;

/// The readings of `s` with bytes as plain sequences.
pub open spec fn readings_view(s: Seq<Reading>) -> Seq<Result<Seq<u8>, IoError>> {
    s.map_values(
        |r: Reading|
            match r {
                Ok(b) => Ok(b@),
                Err(e) => Err(e),
            },
    )
}

/// The packets of `s` with bytes as plain sequences.
pub open spec fn packets_view(s: Seq<Packet>) -> Seq<(IpVersion, Seq<u8>)> {
    s.map_values(|p: Packet| p@)
}

/// What a [`DeviceIo`] holds.
pub struct DeviceIoState {
    /// What the device handed over and the library has not read yet,
    /// oldest first.
    pub unread: Seq<Result<Seq<u8>, IoError>>,
    /// What the library wrote and the device has not been given yet,
    /// oldest first.
    pub written: Seq<(IpVersion, Seq<u8>)>,
}

pub struct DeviceIo {
    unread: VecDeque<Reading>,
    written: VecDeque<Packet>,
}

impl View for DeviceIo {
    type V = DeviceIoState;

    closed spec fn view(&self) -> DeviceIoState {
        DeviceIoState { unread: readings_view(self.unread@), written: packets_view(self.written@) }
    }
}

/// The first `n` bytes of `frame`, then `buf` from its byte `n` on.
pub open spec fn filled(buf: Seq<u8>, frame: Seq<u8>, n: int) -> Seq<u8> {
    frame.take(n) + buf.skip(n)
}

/// The smaller of two lengths.
pub open spec fn min_len(a: int, b: int) -> int {
    if a < b {
        a
    } else {
        b
    }
}

impl DeviceIo {
    /// A device end that holds nothing.
    pub fn new() -> (io: DeviceIo)
        ensures
            io@.unread.len() == 0,
            io@.written.len() == 0,
    {
        DeviceIo { unread: VecDeque::new(), written: VecDeque::new() }
    }

    /// Takes in what the device handed over at one read.
    pub fn feed(&mut self, reading: Reading)
        ensures
            final(self)@.unread == old(self)@.unread.push(
                match reading {
                    Ok(b) => Ok(b@),
                    Err(e) => Err(e),
                },
            ),
            final(self)@.written == old(self)@.written,
    {
        self.unread.push_back(reading);
        assert(readings_view(self.unread@) =~= readings_view(old(self).unread@).push(
            match reading {
                Ok(b) => Ok(b@),
                Err(e) => Err(e),
            },
        ));
    }

    /// Gives up the oldest packet that was written and not taken yet.
    pub fn take_written(&mut self) -> (p: Option<Packet>)
        ensures
            final(self)@.unread == old(self)@.unread,
            match p {
                Some(p) => old(self)@.written.len() > 0 && p@ == old(self)@.written[0] && final(self)@.written
                    == old(self)@.written.drop_first(),
                None => old(self)@.written.len() == 0 && final(self)@.written == old(self)@.written,
            },
    {
        let p = self.written.pop_front();
        proof {
            if p is Some {
                assert(packets_view(self.written@) =~= packets_view(old(self).written@).drop_first());
            }
        }
        p
    }

    /// Reads the oldest unread reading into the first `limit` bytes of
    /// `buf`. Without one the poll is pending. Bytes that do not fit are
    /// dropped; the count is of those that were copied, and zero means
    /// that the device has come to its end.
    pub fn poll_read(&mut self, buf: &mut Vec<u8>, limit: usize) -> (r: Poll<Result<usize, IoError>>)
        requires
            limit <= old(buf).len(),
        ensures
            final(self)@.written == old(self)@.written,
            final(buf)@.len() == old(buf)@.len(),
            match r {
                Poll::Pending => old(self)@.unread.len() == 0 && final(self)@ == old(self)@ && final(buf)@
                    == old(buf)@,
                Poll::Ready(outcome) => old(self)@.unread.len() > 0 && final(self)@.unread == old(self)@.unread.drop_first() && match old(self)@.unread[0] {
                    Ok(frame) => outcome == Ok::<usize, IoError>(min_len(frame.len() as int, limit as int) as usize)
                        && final(buf)@ == filled(
                        old(buf)@,
                        frame,
                        min_len(frame.len() as int, limit as int),
                    ),
                    Err(e) => outcome == Err::<usize, IoError>(e) && final(buf)@ == old(buf)@,
                },
            },
    {
        let reading = self.unread.pop_front();
        proof {
            if reading is Some {
                assert(readings_view(self.unread@) =~= readings_view(old(self).unread@).drop_first());
                assert(readings_view(old(self).unread@)[0] == match reading->0 {
                    Ok(b) => Ok::<Seq<u8>, IoError>(b@),
                    Err(e) => Err(e),
                });
            }
        }
        match reading {
            None => Poll::Pending,
            Some(Err(e)) => Poll::Ready(Err(e)),
            Some(Ok(frame)) => {
                let n: usize = if frame.len() < limit {
                    frame.len()
                } else {
                    limit
                };
                let mut i: usize = 0;
                while i < n
                    invariant
                        i <= n <= frame.len(),
                        n <= buf.len(),
                        buf@.len() == old(buf)@.len(),
                        buf@ == filled(old(buf)@, frame@, i as int),
                    decreases n - i,
                {
                    buf.set(i, frame[i]);
                    assert(buf@ =~= filled(old(buf)@, frame@, i + 1));
                    i += 1;
                }
                Poll::Ready(Ok(n))
            },
        }
    }

    /// Queues a packet for the device and says how many bytes it has.
    pub fn write(&mut self, packet: Packet) -> (r: Result<usize, IoError>)
        ensures
            r == Ok::<usize, IoError>(packet@.1.len() as usize),
            final(self)@.unread == old(self)@.unread,
            final(self)@.written == old(self)@.written.push(packet@),
    {
        let n = packet.len();
        self.written.push_back(packet);
        assert(packets_view(self.written@) =~= packets_view(old(self).written@).push(packet@));
        Ok(n)
    }
}

/// How the device is set up.
pub struct IfaceConfig {
    mtu: usize,
}

impl IfaceConfig {
    pub fn new(mtu: usize) -> (c: IfaceConfig)
        ensures
            c.mtu() == mtu,
    {
        IfaceConfig { mtu }
    }

    pub closed spec fn spec_mtu(&self) -> usize {
        self.mtu
    }

    /// The largest packet the device takes.
    #[verifier::when_used_as_spec(spec_mtu)]
    pub fn mtu(&self) -> (m: usize)
        ensures
            m == self.mtu(),
    {
        self.mtu
    }

    /// Takes note of the size that the device reported.
    pub fn set_mtu(&mut self, mtu: usize)
        ensures
            final(self).mtu() == mtu,
    {
        self.mtu = mtu;
    }
}

/// A device: how it is set up, and the library's end of it.
pub struct Device {
    pub config: IfaceConfig,
    pub io: DeviceIo,
}

/// What one read of a device gives, for the reading `reading` cut to
/// `mtu` bytes: a packet, the end of the device (no bytes), or a
/// failure. Bytes that are no IP packet are a failure.
pub open spec fn read_outcome(reading: Result<Seq<u8>, IoError>, mtu: int) -> Result<
    Option<Seq<u8>>,
    IoError,
> {
    match reading {
        Err(e) => Err(e),
        Ok(frame) => {
            let got = frame.take(min_len(frame.len() as int, mtu));
            if got.len() == 0 {
                Ok(None)
            } else if ip_version(got) is Some {
                Ok(Some(got))
            } else {
                Err(IoError::InvalidInput)
            }
        },
    }
}

impl Device {
    /// Reads the next packet, through `buf`: one reading is taken and
    /// the bytes of it that fit the device's packet size are copied to
    /// the start of `buf`; the rest of `buf` stays as it was. See
    /// [`read_outcome`].
    pub fn poll_read(&mut self, buf: &mut Vec<u8>) -> (r: Poll<Result<Option<MutableIpPacket>, IoError>>)
        requires
            old(self).config.mtu() <= old(buf).len(),
        ensures
            final(self).config == old(self).config,
            final(self).io@.written == old(self).io@.written,
            final(buf)@ == if old(self).io@.unread.len() > 0 {
                match old(self).io@.unread[0] {
                    Ok(frame) => filled(
                        old(buf)@,
                        frame,
                        min_len(frame.len() as int, old(self).config.mtu() as int),
                    ),
                    Err(_) => old(buf)@,
                }
            } else {
                old(buf)@
            },
            match r {
                Poll::Pending => old(self).io@.unread.len() == 0 && final(self).io@ == old(self).io@,
                Poll::Ready(outcome) => old(self).io@.unread.len() > 0 && final(self).io@.unread == old(self).io@.unread.drop_first() && match (
                    outcome,
                    read_outcome(old(self).io@.unread[0], old(self).config.mtu() as int),
                ) {
                    (Ok(Some(p)), Ok(Some(bytes))) => p@ == bytes && p.wf(),
                    (Ok(None), Ok(None)) => true,
                    (Err(e), Err(f)) => e == f,
                    _ => false,
                },
            },
    {
        let limit = self.config.mtu();
        match self.io.poll_read(buf, limit) {
            Poll::Pending => Poll::Pending,
            Poll::Ready(Err(e)) => Poll::Ready(Err(e)),
            Poll::Ready(Ok(n)) => {
                if n == 0 {
                    return Poll::Ready(Ok(None));
                }
                let got = slice_subrange(buf.as_slice(), 0, n);
                proof {
                    let frame = old(self).io@.unread[0]->Ok_0;
                    assert(got@ =~= frame.take(min_len(frame.len() as int, limit as int)));
                }
                match MutableIpPacket::new(got) {
                    Some(p) => Poll::Ready(Ok(Some(p))),
                    None => Poll::Ready(Err(IoError::InvalidInput)),
                }
            },
        }
    }
}

} // verus!
