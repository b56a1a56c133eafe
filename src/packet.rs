//! The packet: a command byte followed by a bounded payload, and its frame
//! encoding.
use vstd::prelude::*;
use crate::cobs::{
    block_len, cobs_encode, decode_body, decode_frame, encode_body, lemma_block_len,
    lemma_encode_body_len, lemma_encode_body_nonzero, lemma_round_trip, run_end, DecodeError,
    MAX_RUN,
};

verus! {

/// Bytes a packet holds: the command byte and the payload.
pub const MAX_PACKET_SIZE: usize = 255;

/// Largest payload of one packet.
pub const MAX_PACKET_PAYLOAD_SIZE: usize = 254;

/// Room for the frame of the largest packet: its bytes, at most two
/// pointers, and the delimiter.
pub const MAX_ENCODED_SIZE: usize = MAX_PACKET_SIZE + 3;

/// Why a payload could not be set.
#[derive(Debug, Clone, Copy, PartialEq, Eq, Structural)]
pub enum EncodeError {
    /// The payload is longer than `MAX_PACKET_PAYLOAD_SIZE`.
    PayloadTooLarge,
}

/// What a packet asks of its receiver. Codes without a meaning map to
/// `CMD_INVALID`.
#[allow(non_camel_case_types)]
#[derive(Debug, Clone, Copy, PartialEq, Eq, Structural)]
pub enum Command {
    CMD_INVALID,
    CMD_SCREEN_BUFFER,
    CMD_ACK,
}

/// The wire code of a command.
pub open spec fn command_code(c: Command) -> u8 {
    match c {
        Command::CMD_INVALID => 0x00,
        Command::CMD_SCREEN_BUFFER => 0x01,
        Command::CMD_ACK => 0x02,
    }
}

/// The command that a wire code stands for.
pub open spec fn command_of(code: u8) -> Command {
    if code == 0x01 {
        Command::CMD_SCREEN_BUFFER
    } else if code == 0x02 {
        Command::CMD_ACK
    } else {
        Command::CMD_INVALID
    }
}

impl From<Command> for u8 {
    fn from(command: Command) -> (r: u8) {
        match command {
            Command::CMD_INVALID => 0x00,
            Command::CMD_SCREEN_BUFFER => 0x01,
            Command::CMD_ACK => 0x02,
        }
    }
}

impl vstd::std_specs::convert::FromSpecImpl<Command> for u8 {
    open spec fn obeys_from_spec() -> bool {
        true
    }

    open spec fn from_spec(v: Command) -> u8 {
        command_code(v)
    }
}

impl From<u8> for Command {
    fn from(command: u8) -> (r: Command) {
        match command {
            0x01 => Command::CMD_SCREEN_BUFFER,
            0x02 => Command::CMD_ACK,
            _ => Command::CMD_INVALID,
        }
    }
}

impl vstd::std_specs::convert::FromSpecImpl<u8> for Command {
    open spec fn obeys_from_spec() -> bool {
        true
    }

    open spec fn from_spec(v: u8) -> Command {
        command_of(v)
    }
}

/// Every command survives the trip through its wire code.
pub proof fn lemma_command_code(c: Command)
    ensures
        command_of(command_code(c)) == c,
{
}

/// What a frame decodes to as the content of a packet.
pub open spec fn cobs_decode(f: Seq<u8>) -> Result<Seq<u8>, DecodeError> {
    match decode_frame(f) {
        None => Err(DecodeError::Truncated),
        Some(d) => if d.len() > MAX_PACKET_SIZE {
            Err(DecodeError::PayloadOverflow)
        } else {
            Ok(d)
        },
    }
}

/// Every command and payload of at most `MAX_PACKET_SIZE` bytes in all
/// survives encoding and decoding unchanged.
pub proof fn lemma_packet_round_trip(s: Seq<u8>)
    requires
        1 <= s.len() <= MAX_PACKET_SIZE,
    ensures
        cobs_decode(cobs_encode(s)) == Ok::<Seq<u8>, DecodeError>(s),
{
    lemma_round_trip(s);
}

/// A command byte (`data[0]`) followed by the payload; `size` counts both.
#[derive(Debug, Clone, Copy)]
pub struct Packet {
    pub data: [u8; MAX_PACKET_SIZE],
    pub size: usize,
}

impl View for Packet {
    type V = Seq<u8>;

    /// The command byte and the payload, as they go on the wire.
    open spec fn view(&self) -> Seq<u8> {
        self.data@.take(self.size as int)
    }
}

impl Packet {
    pub open spec fn wf(&self) -> bool {
        self.size <= MAX_PACKET_SIZE
    }

    pub fn new() -> (r: Self)
        ensures
            r.wf(),
            r.size == 0,
            forall|k: int| 0 <= k < MAX_PACKET_SIZE ==> r.data@[k] == 0,
    {
        Self { data: [0; MAX_PACKET_SIZE], size: 0 }
    }

    pub fn command(&self) -> (r: u8)
        ensures
            r == self.data@[0],
    {
        self.data[0]
    }

    pub fn set_command(&mut self, command: u8)
        ensures
            final(self).data@ == old(self).data@.update(0, command),
            final(self).size == old(self).size,
    {
        self.data[0] = command;
    }

    /// The payload: the bytes after the command byte.
    pub fn get_payload(&self) -> (r: &[u8])
        requires
            1 <= self.size <= MAX_PACKET_SIZE,
        ensures
            r@ == self@.skip(1),
    {
        let r = &self.data[1..self.size];
        assert(r@ =~= self@.skip(1));
        r
    }

    /// Sets the payload and the size; the command byte is kept. A payload
    /// longer than `MAX_PACKET_PAYLOAD_SIZE` is refused and nothing changes.
    pub fn set_payload(&mut self, payload: &[u8]) -> (r: Result<(), EncodeError>)
        ensures
            payload@.len() > MAX_PACKET_PAYLOAD_SIZE ==> r == Err::<(), EncodeError>(
                EncodeError::PayloadTooLarge,
            ),
            payload@.len() > MAX_PACKET_PAYLOAD_SIZE ==> *final(self) == *old(self),
            payload@.len() <= MAX_PACKET_PAYLOAD_SIZE ==> r is Ok,
            payload@.len() <= MAX_PACKET_PAYLOAD_SIZE ==> final(self).wf(),
            payload@.len() <= MAX_PACKET_PAYLOAD_SIZE ==> final(self)@ == seq![old(self).data@[0]]
                + payload@,
            payload@.len() <= MAX_PACKET_PAYLOAD_SIZE ==> final(self).data@.skip(
                payload@.len() + 1 as int,
            ) == old(self).data@.skip(payload@.len() + 1 as int),
    {
        let len = payload.len();
        if len > MAX_PACKET_PAYLOAD_SIZE {
            return Err(EncodeError::PayloadTooLarge);
        }
        let ghost before = self.data@;
        let mut k: usize = 0;
        while k < len
            invariant
                len == payload@.len(),
                len <= MAX_PACKET_PAYLOAD_SIZE,
                k <= len,
                self.data@.len() == before.len(),
                self.data@[0] == before[0],
                forall|j: int| 0 <= j < k ==> self.data@[j + 1] == payload@[j],
                forall|j: int| len + 1 <= j < MAX_PACKET_SIZE ==> self.data@[j] == before[j],
            decreases len - k,
        {
            self.data[k + 1] = payload[k];
            k = k + 1;
        }
        self.size = len + 1;
        assert(self@ =~= seq![before[0]] + payload@);
        assert(self.data@.skip(len + 1) =~= before.skip(len + 1));
        Ok(())
    }

    /// All the bytes of the packet's buffer, used or not.
    pub fn data(&self) -> (r: &[u8])
        ensures
            r@ == self.data@,
    {
        &self.data
    }

    /// All the bytes of the packet's buffer, for writing; the size is kept.
    pub fn data_mut(&mut self) -> (r: &mut [u8])
        ensures
            r@ == old(self).data@,
            final(self).data@ == final(r)@,
            final(self).size == old(self).size,
    {
        &mut self.data
    }

    /// Decodes one frame, delimiter included.
    pub fn from_cobs(encoded_data: &[u8]) -> (r: Result<Self, DecodeError>)
        ensures
            match r {
                Ok(p) => p.wf() && cobs_decode(encoded_data@) == Ok::<Seq<u8>, DecodeError>(p@),
                Err(e) => cobs_decode(encoded_data@) == Err::<Seq<u8>, DecodeError>(e),
            },
    {
        let len = encoded_data.len();
        if len == 0 || encoded_data[len - 1] != 0 {
            return Err(DecodeError::Truncated);
        }
        let blen = len - 1;
        let ghost body = encoded_data@.drop_last();
        let mut out: Vec<u8> = Vec::new();
        let mut i: usize = 0;
        assert(body.skip(0) =~= body);
        proof {
            match decode_body(body) {
                Some(rest) => assert(out@ + rest =~= rest),
                None => {},
            }
        }
        loop
            invariant_except_break
                out@.len() <= i,
                decode_body(body) == match decode_body(body.skip(i as int)) {
                    Some(rest) => Some(out@ + rest),
                    None => None::<Seq<u8>>,
                },
            invariant
                blen == body.len(),
                blen + 1 == len,
                body == encoded_data@.drop_last(),
                len == encoded_data@.len(),
                encoded_data@.last() == 0,
                i <= blen,
            ensures
                out@.len() <= blen,
                decode_body(body) == Some(out@),
            decreases blen - i,
        {
            if i >= blen {
                assert(body.skip(i as int).len() == 0);
                return Err(DecodeError::Truncated);
            }
            let c = encoded_data[i] as usize;
            let ghost t = body.skip(i as int);
            assert(t[0] == c);
            if c == 0 || c > blen - i {
                return Err(DecodeError::Truncated);
            }
            let ghost out0 = out@;
            let mut k: usize = i + 1;
            while k < i + c
                invariant
                    i + 1 <= k <= i + c,
                    i + c <= blen,
                    blen == body.len(),
                    blen + 1 == len,
                    len == encoded_data@.len(),
                    body == encoded_data@.drop_last(),
                    out@ == out0 + body.subrange(i + 1, k as int),
                decreases i + c - k,
            {
                out.push(encoded_data[k]);
                k = k + 1;
                assert(out@ =~= out0 + body.subrange(i + 1, k as int));
            }
            assert(t.subrange(1, c as int) =~= body.subrange(i + 1, i + c));
            if c == blen - i {
                assert(out@ =~= out0 + t.subrange(1, c as int));
                break;
            }
            assert(t.skip(c as int) =~= body.skip(i + c));
            if c < 255 {
                out.push(0);
                assert(out@ =~= out0 + t.subrange(1, c as int) + seq![0u8]);
            } else {
                assert(out@ =~= out0 + t.subrange(1, c as int) + Seq::<u8>::empty());
            }
            proof {
                match decode_body(body.skip(i + c)) {
                    Some(rest) => {
                        assert(out0 + (t.subrange(1, c as int) + (if c < 255 {
                            seq![0u8]
                        } else {
                            Seq::empty()
                        }) + rest) =~= out@ + rest);
                    },
                    None => {},
                }
            }
            i = i + c;
        }
        assert(decode_body(body) == Some(out@));
        assert(decode_frame(encoded_data@) == Some(out@));
        if out.len() > MAX_PACKET_SIZE {
            return Err(DecodeError::PayloadOverflow);
        }
        let mut packet = Packet::new();
        let mut k: usize = 0;
        while k < out.len()
            invariant
                out@.len() <= MAX_PACKET_SIZE,
                k <= out@.len(),
                packet.size == 0,
                forall|j: int| 0 <= j < k ==> packet.data@[j] == out@[j],
            decreases out@.len() - k,
        {
            packet.data[k] = out[k];
            k = k + 1;
        }
        packet.size = out.len();
        assert(packet@ =~= out@);
        Ok(packet)
    }

    /// Encodes the packet as a frame. Returns a buffer and the number of its
    /// leading bytes that form the frame.
    pub fn to_cobs_slice(&self) -> (r: ([u8; MAX_ENCODED_SIZE], usize))
        requires
            self.wf(),
        ensures
            r.1 <= MAX_ENCODED_SIZE,
            r.0@.take(r.1 as int) == cobs_encode(self@),
            self@.len() == 0 ==> r.1 == 2,
            self@.len() > 0 ==> r.1 <= self@.len() + (self@.len() + 253) / 254 + 1,
            forall|k: int| 0 <= k < r.1 - 1 ==> r.0@[k] != 0,
    {
        let size = self.size;
        let ghost s = self@;
        let mut out = [0u8; MAX_ENCODED_SIZE];
        let mut o: usize = 0;
        let mut i: usize = 0;
        proof {
            lemma_encode_body_len(s);
            lemma_encode_body_nonzero(s);
            assert(s.skip(0) =~= s);
            assert(out@.take(0) + encode_body(s) =~= encode_body(s));
        }
        loop
            invariant_except_break
                encode_body(s) == out@.take(o as int) + encode_body(s.skip(i as int)),
                o + encode_body(s.skip(i as int)).len() == encode_body(s).len(),
            invariant
                s == self.data@.take(size as int),
                size == self.size,
                size <= MAX_PACKET_SIZE,
                i <= size,
                encode_body(s).len() <= size + 2,
            ensures
                encode_body(s) == out@.take(o as int),
                o == encode_body(s).len(),
            decreases size - i,
        {
            let ghost t = s.skip(i as int);
            let mut n: usize = 0;
            while n < MAX_RUN && i + n < size && self.data[i + n] != 0
                invariant
                    n <= MAX_RUN,
                    i + n <= size,
                    size <= MAX_PACKET_SIZE,
                    t == self.data@.take(size as int).skip(i as int),
                    run_end(t, n as nat) == block_len(t),
                decreases MAX_RUN - n,
            {
                n = n + 1;
            }
            proof {
                lemma_block_len(t);
                lemma_encode_body_len(t);
            }
            assert(n == block_len(t));
            let ghost head = out@.take(o as int);
            assert(n + 1 <= encode_body(t).len());
            out[o] = (n + 1) as u8;
            let mut k: usize = 0;
            while k < n
                invariant
                    k <= n,
                    n <= MAX_RUN,
                    i + n <= size,
                    size <= MAX_PACKET_SIZE,
                    o + 1 + n <= MAX_ENCODED_SIZE,
                    t == self.data@.take(size as int).skip(i as int),
                    forall|j: int| 0 <= j < o ==> out@[j] == head[j],
                    out@[o as int] == (n + 1) as u8,
                    forall|j: int| 0 <= j < k ==> out@[o + 1 + j] == t[j],
                decreases n - k,
            {
                out[o + 1 + k] = self.data[i + k];
                k = k + 1;
            }
            assert(out@.take(o + 1 + n) =~= head + seq![(n + 1) as u8] + t.take(n as int));
            o = o + 1 + n;
            if i + n >= size {
                assert(t.take(n as int) =~= t);
                assert(encode_body(s) =~= out@.take(o as int));
                break;
            }
            if n >= MAX_RUN {
                assert(t.skip(MAX_RUN as int) =~= s.skip(i + n));
                i = i + n;
            } else {
                assert(t.skip(n + 1) =~= s.skip(i + n + 1));
                i = i + n + 1;
            }
        }
        out[o] = 0;
        assert(out@.take(o + 1) =~= cobs_encode(s));
        assert forall|k: int| 0 <= k < o implies out@[k] != 0 by {
            assert(out@[k] == out@.take(o + 1)[k]);
        }
        proof {
            let e = encode_body(s).len() as int;
            let l = s.len() as int;
            if l > 0 {
                assert(e <= l + (l + 253) / 254) by (nonlinear_arith)
                    requires
                        254 * (e - l - 1) + 1 <= l,
                        e >= l + 1,
                ;
            }
        }
        (out, o + 1)
    }
}

} // verus!
