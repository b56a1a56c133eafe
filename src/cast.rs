//! Splitting a screen update into packets.
//!
//! An update names the rows that changed. Its payload is the row count, the
//! row indices, then the bytes of each named row in the same order; it is cut
//! into packets of at most `MAX_PACKET_PAYLOAD_SIZE` bytes, sent in order.
use vstd::prelude::*;
use crate::packet::{command_code, Command, Packet, MAX_PACKET_PAYLOAD_SIZE};
use crate::utils::udiv_ceil;

verus! {

/// Rows of the screen.
pub const SCREEN_ROWS: usize = 240;

/// Bytes of one screen row.
pub const ROW_BYTES: usize = 50;

/// Number of bytes in a screen buffer
pub const SCREEN_BUFFER_NBYTES: usize = SCREEN_ROWS * ROW_BYTES;

/// Maximum payload size needed to send a screen buffer
pub const SCREEN_BUFFER_PACKETS_MAX_PAYLOAD: usize = 1 + SCREEN_ROWS + SCREEN_BUFFER_NBYTES;

/// Maximum number of packets needed to send a screen buffer
pub const SCREEN_BUFFER_MAX_PACKETS: usize = (SCREEN_BUFFER_PACKETS_MAX_PAYLOAD
    + MAX_PACKET_PAYLOAD_SIZE - 1) / MAX_PACKET_PAYLOAD_SIZE;

/// The bytes of the named rows, in the order named.
pub open spec fn rows_bytes(screen: Seq<[u8; ROW_BYTES]>, lines: Seq<u8>) -> Seq<u8>
    decreases lines.len(),
{
    if lines.len() == 0 {
        Seq::empty()
    } else {
        rows_bytes(screen, lines.drop_last()) + screen[lines.last() as int]@
    }
}

/// The whole payload of an update: row count, row indices, row bytes.
pub open spec fn screen_payload(screen: Seq<[u8; ROW_BYTES]>, lines: Seq<u8>) -> Seq<u8> {
    seq![lines.len() as u8] + lines + rows_bytes(screen, lines)
}

/// Size of the whole payload of an update of `k` rows.
pub open spec fn screen_payload_len(k: nat) -> nat {
    (1 + k + k * ROW_BYTES) as nat
}

/// The payloads of `ps`, joined in order.
pub open spec fn joined_payloads(ps: Seq<Packet>) -> Seq<u8>
    decreases ps.len(),
{
    if ps.len() == 0 {
        Seq::empty()
    } else {
        joined_payloads(ps.drop_last()) + ps.last()@.skip(1)
    }
}

/// The rows named by `lines` exist.
pub open spec fn lines_valid(lines: Seq<u8>) -> bool {
    &&& lines.len() <= SCREEN_ROWS
    &&& forall|i: int| 0 <= i < lines.len() ==> lines[i] < SCREEN_ROWS
}

proof fn lemma_rows_bytes_len(screen: Seq<[u8; ROW_BYTES]>, lines: Seq<u8>)
    ensures
        rows_bytes(screen, lines).len() == lines.len() * ROW_BYTES,
    decreases lines.len(),
{
    if lines.len() > 0 {
        lemma_rows_bytes_len(screen, lines.drop_last());
    }
}

/// Cuts the update that names `selected_lines` of `screen_buffer` into
/// packets. Returns the packets and how many of them are used.
pub fn screen_buffer_to_packets(
    screen_buffer: [[u8; ROW_BYTES]; SCREEN_ROWS],
    selected_lines: &[u8],
) -> (r: ([Packet; SCREEN_BUFFER_MAX_PACKETS], usize))
    requires
        lines_valid(selected_lines@),
    ensures
        r.1 == (screen_payload_len(selected_lines@.len()) + MAX_PACKET_PAYLOAD_SIZE - 1)
            / MAX_PACKET_PAYLOAD_SIZE as int,
        r.1 <= SCREEN_BUFFER_MAX_PACKETS,
        forall|i: int|
            0 <= i < r.1 ==> {
                &&& (#[trigger] r.0@[i]).wf()
                &&& r.0@[i].size >= 1
                &&& r.0@[i].data@[0] == command_code(Command::CMD_SCREEN_BUFFER)
                &&& r.0@[i]@.skip(1) == screen_payload(screen_buffer@, selected_lines@).subrange(
                    i * MAX_PACKET_PAYLOAD_SIZE,
                    if (i + 1) * MAX_PACKET_PAYLOAD_SIZE < screen_payload_len(
                        selected_lines@.len(),
                    ) {
                        (i + 1) * MAX_PACKET_PAYLOAD_SIZE
                    } else {
                        screen_payload_len(selected_lines@.len()) as int
                    },
                )
            },
        joined_payloads(r.0@.take(r.1 as int)) == screen_payload(
            screen_buffer@,
            selected_lines@,
        ),
{
    let n_lines_changed = selected_lines.len();
    let ghost screen = screen_buffer@;
    let ghost lines = selected_lines@;
    let mut total_payload: Vec<u8> = Vec::new();
    total_payload.push(n_lines_changed as u8);
    let mut i: usize = 0;
    while i < n_lines_changed
        invariant
            n_lines_changed == lines.len(),
            lines == selected_lines@,
            lines_valid(lines),
            i <= n_lines_changed,
            total_payload@ == seq![n_lines_changed as u8] + lines.take(i as int),
        decreases n_lines_changed - i,
    {
        total_payload.push(selected_lines[i]);
        i = i + 1;
        assert(total_payload@ =~= seq![n_lines_changed as u8] + lines.take(i as int));
    }
    assert(lines.take(n_lines_changed as int) =~= lines);
    let mut i: usize = 0;
    while i < n_lines_changed
        invariant
            n_lines_changed == lines.len(),
            lines == selected_lines@,
            screen == screen_buffer@,
            lines_valid(lines),
            i <= n_lines_changed,
            total_payload@ == seq![n_lines_changed as u8] + lines + rows_bytes(
                screen,
                lines.take(i as int),
            ),
        decreases n_lines_changed - i,
    {
        let line = selected_lines[i];
        let line_data = screen_buffer[line as usize];
        let ghost before = total_payload@;
        let mut j: usize = 0;
        while j < ROW_BYTES
            invariant
                j <= ROW_BYTES,
                total_payload@ == before + line_data@.take(j as int),
            decreases ROW_BYTES - j,
        {
            total_payload.push(line_data[j]);
            j = j + 1;
            assert(total_payload@ =~= before + line_data@.take(j as int));
        }
        assert(lines.take(i + 1).drop_last() =~= lines.take(i as int));
        assert(line_data@.take(ROW_BYTES as int) =~= line_data@);
        i = i + 1;
        assert(total_payload@ =~= seq![n_lines_changed as u8] + lines + rows_bytes(
            screen,
            lines.take(i as int),
        ));
    }
    assert(lines.take(n_lines_changed as int) =~= lines);
    proof {
        lemma_rows_bytes_len(screen, lines);
    }
    let ghost payload = screen_payload(screen, lines);
    assert(total_payload@ == payload);
    let payload_size = total_payload.len();
    let n_packets = udiv_ceil(payload_size, MAX_PACKET_PAYLOAD_SIZE);
    let mut packets = [Packet::new(); SCREEN_BUFFER_MAX_PACKETS];
    let mut payload_ptr: usize = 0;
    let mut k: usize = 0;
    while payload_ptr < payload_size
        invariant
            payload_size == payload.len(),
            payload_size == screen_payload_len(lines.len()),
            payload_size <= SCREEN_BUFFER_PACKETS_MAX_PAYLOAD,
            total_payload@ == payload,
            n_packets == (payload_size + MAX_PACKET_PAYLOAD_SIZE - 1) / MAX_PACKET_PAYLOAD_SIZE as int,
            payload_ptr <= payload_size,
            payload_ptr < payload_size ==> payload_ptr == k * MAX_PACKET_PAYLOAD_SIZE,
            payload_ptr == payload_size ==> k == n_packets,
            k <= n_packets,
            n_packets <= SCREEN_BUFFER_MAX_PACKETS,
            forall|i: int|
                0 <= i < k ==> {
                    &&& (#[trigger] packets@[i]).wf()
                    &&& packets@[i].size >= 1
                    &&& packets@[i].data@[0] == command_code(Command::CMD_SCREEN_BUFFER)
                    &&& packets@[i]@.skip(1) == payload.subrange(
                        i * MAX_PACKET_PAYLOAD_SIZE,
                        if (i + 1) * MAX_PACKET_PAYLOAD_SIZE < payload_size {
                            (i + 1) * MAX_PACKET_PAYLOAD_SIZE
                        } else {
                            payload_size as int
                        },
                    )
                },
            joined_payloads(packets@.take(k as int)) == payload.take(payload_ptr as int),
        decreases payload_size - payload_ptr,
    {
        let next_payload_ptr = if payload_ptr + MAX_PACKET_PAYLOAD_SIZE < payload_size {
            payload_ptr + MAX_PACKET_PAYLOAD_SIZE
        } else {
            payload_size
        };
        let mut packet = Packet::new();
        let code = u8::from(Command::CMD_SCREEN_BUFFER);
        assert(code == command_code(Command::CMD_SCREEN_BUFFER));
        packet.set_command(code);
        let chunk = &total_payload.as_slice()[payload_ptr..next_payload_ptr];
        let _ = packet.set_payload(chunk);
        let ghost old_packets = packets@;
        packets[k] = packet;
        proof {
            assert(packets@.take(k + 1).drop_last() =~= old_packets.take(k as int));
            assert(payload.take(next_payload_ptr as int) =~= payload.take(payload_ptr as int)
                + chunk@);
            assert(packet@.skip(1) =~= chunk@);
            assert(packet@.skip(1) == payload.subrange(
                k * MAX_PACKET_PAYLOAD_SIZE,
                if (k + 1) * MAX_PACKET_PAYLOAD_SIZE < payload_size {
                    (k + 1) * MAX_PACKET_PAYLOAD_SIZE
                } else {
                    payload_size as int
                },
            ));
            assert(packet.wf());
            assert(packet.size >= 1);
            assert(packet@[0] == packet.data@[0]);
            assert(packet.data@[0] == command_code(Command::CMD_SCREEN_BUFFER));
            assert(packets@[k as int] == packet);
            assert(forall|i: int| 0 <= i < k ==> packets@[i] == old_packets[i]);
            if next_payload_ptr < payload_size {
                assert((k + 1) * MAX_PACKET_PAYLOAD_SIZE < payload_size);
            }
        }
        payload_ptr = next_payload_ptr;
        k = k + 1;
    }
    assert(payload.take(payload_size as int) =~= payload);
    (packets, n_packets)
}

} // verus!
