//! The translated (Type 1) IL2P header and the AX.25 frame it stands for.
use vstd::prelude::*;
use crate::error::Error;
use crate::packet::{Call, Control, Frame, FrameView, Pid, SKind, UKind, call_parts_valid};

verus! {

pub const HEADER_LEN: usize = 13;

/// `1` for true, `0` for false.
pub open spec fn flag(b: bool) -> u8 {
    if b {
        1u8
    } else {
        0u8
    }
}

pub open spec fn s_code_spec(kind: SKind) -> u8 {
    match kind {
        SKind::Rr => 0u8,
        SKind::Rnr => 1u8,
        SKind::Rej => 2u8,
        SKind::Srej => 3u8,
    }
}

pub open spec fn s_kind_spec(code: u8) -> SKind {
    if code == 0 {
        SKind::Rr
    } else if code == 1 {
        SKind::Rnr
    } else if code == 2 {
        SKind::Rej
    } else {
        SKind::Srej
    }
}

pub open spec fn u_code_spec(kind: UKind) -> u8 {
    match kind {
        UKind::Sabm => 0u8,
        UKind::Disc => 1u8,
        UKind::Dm => 2u8,
        UKind::Ua => 3u8,
        UKind::Frmr => 4u8,
        UKind::Ui(_) => 5u8,
        UKind::Xid => 6u8,
        UKind::Test => 7u8,
    }
}

pub open spec fn u_kind_spec(code: u8, pid: Pid) -> UKind {
    if code == 0 {
        UKind::Sabm
    } else if code == 1 {
        UKind::Disc
    } else if code == 2 {
        UKind::Dm
    } else if code == 3 {
        UKind::Ua
    } else if code == 4 {
        UKind::Frmr
    } else if code == 5 {
        UKind::Ui(pid)
    } else if code == 6 {
        UKind::Xid
    } else {
        UKind::Test
    }
}

/// The AX.25 protocol identifier byte for an IL2P protocol identifier.
pub open spec fn ax_pid_spec(pid: Pid) -> u8 {
    seq![
        0xf0u8, 0xf0, 0x20, 0x01, 0x06, 0x07, 0x08, 0xf0, 0xf0, 0xf0, 0xf0, 0xcc, 0xcd, 0xce, 0xcf, 0xf0,
    ][pid.spec_code() as int]
}

fn s_code(kind: SKind) -> (r: u8)
    ensures
        r == s_code_spec(kind),
{
    match kind {
        SKind::Rr => 0,
        SKind::Rnr => 1,
        SKind::Rej => 2,
        SKind::Srej => 3,
    }
}

fn s_kind(code: u8) -> (r: SKind)
    ensures
        r == s_kind_spec(code),
{
    match code {
        0 => SKind::Rr,
        1 => SKind::Rnr,
        2 => SKind::Rej,
        _ => SKind::Srej,
    }
}

fn u_code(kind: UKind) -> (r: u8)
    ensures
        r == u_code_spec(kind),
{
    match kind {
        UKind::Sabm => 0,
        UKind::Disc => 1,
        UKind::Dm => 2,
        UKind::Ua => 3,
        UKind::Frmr => 4,
        UKind::Ui(_) => 5,
        UKind::Xid => 6,
        UKind::Test => 7,
    }
}

fn u_kind(code: u8, pid: Pid) -> (r: UKind)
    ensures
        r == u_kind_spec(code, pid),
{
    match code {
        0 => UKind::Sabm,
        1 => UKind::Disc,
        2 => UKind::Dm,
        3 => UKind::Ua,
        4 => UKind::Frmr,
        5 => UKind::Ui(pid),
        6 => UKind::Xid,
        _ => UKind::Test,
    }
}

fn ax_pid(pid: Pid) -> (r: u8)
    ensures
        r == ax_pid_spec(pid),
{
    let table: [u8; 16] = [
        0xf0, 0xf0, 0x20, 0x01, 0x06, 0x07, 0x08, 0xf0, 0xf0, 0xf0, 0xf0, 0xcc, 0xcd, 0xce, 0xcf,
        0xf0,
    ];
    let code = pid.code();
    assert(table@ =~= seq![
        0xf0u8, 0xf0, 0x20, 0x01, 0x06, 0x07, 0x08, 0xf0, 0xf0, 0xf0, 0xf0, 0xcc, 0xcd, 0xce, 0xcf, 0xf0,
    ]);
    table[code as usize]
}

/// The Pid codes inside a control field are valid.
pub open spec fn control_valid(c: Control) -> bool {
    match c {
        Control::I { pid, .. } => 2 <= pid.spec_code() <= 15,
        Control::U { kind: UKind::Ui(pid), .. } => 2 <= pid.spec_code() <= 15,
        _ => true,
    }
}

/// The header's UI flag, four-bit PID lane and seven-bit compact control for a control
/// field, or the error for an out-of-range sequence number.
pub open spec fn control_fields(c: Control) -> Result<(bool, u8, u8), Error> {
    match c {
        Control::I { nr, ns, poll, pid } => if nr > 7 || ns > 7 {
            Err(Error::Frame)
        } else {
            Ok((false, pid.spec_code(), (flag(poll) << 6u8) | (nr << 3u8) | ns))
        },
        Control::S { nr, poll, command, kind } => if nr > 7 {
            Err(Error::Frame)
        } else {
            Ok(
                (
                    false,
                    0u8,
                    (flag(poll) << 6u8) | (nr << 3u8) | (flag(command) << 2u8) | s_code_spec(kind),
                ),
            )
        },
        Control::U { poll, command, kind } => {
            let opcode = u_code_spec(kind);
            let pid = match kind {
                UKind::Ui(p) => p.spec_code(),
                _ => 1u8,
            };
            Ok((opcode == 5, pid, (flag(poll) << 6u8) | (opcode << 3u8) | (flag(command) << 2u8)))
        },
    }
}

/// Whether lane position `k` (the lane ends at byte `end` with the least significant bit
/// and spans `width` bytes) carries a set bit of `value`.
pub open spec fn lane(value: u16, end: int, width: int, k: int) -> bool {
    end - width < k <= end && (value >> ((end - k) as u16)) & 1u16 == 1u16
}

/// The six-bit characters and SSIDs of header byte `k`.
pub open spec fn header_base(dst: Call, src: Call, k: int) -> u8 {
    if k < 6 {
        (dst.spec_name()[k] - 0x20) as u8
    } else if k < 12 {
        (src.spec_name()[k - 6] - 0x20) as u8
    } else {
        (dst.spec_ssid() << 4u8) | src.spec_ssid()
    }
}

/// Byte `k` of a translated header.
pub open spec fn header_byte(
    dst: Call,
    src: Call,
    ui: bool,
    pid: u8,
    compact: u8,
    count: u16,
    k: int,
) -> u8 {
    header_base(dst, src, k) | (if k == 0 && ui { 0x40u8 } else { 0u8 }) | (if lane(
        pid as u16,
        4,
        4,
        k,
    ) { 0x40u8 } else { 0u8 }) | (if lane(compact as u16, 11, 7, k) { 0x40u8 } else { 0u8 }) | (
    if k == 1 { 0x80u8 } else { 0u8 }) | (if lane(count, 11, 10, k) { 0x80u8 } else { 0u8 })
}

pub open spec fn spec_header(
    dst: Call,
    src: Call,
    ui: bool,
    pid: u8,
    compact: u8,
    count: u16,
) -> Seq<u8> {
    Seq::new(13, |k: int| header_byte(dst, src, ui, pid, compact, count, k))
}

/// The translated header of a frame, or the error with which encoding it fails.
pub open spec fn spec_encode(f: FrameView) -> Result<Seq<u8>, Error> {
    match f {
        FrameView::Transparent(_) => Err(Error::Frame),
        FrameView::Translated { dst, src, control, data } => if data.len() > 1023 {
            Err(Error::TooLong)
        } else {
            match control_fields(control) {
                Err(e) => Err(e),
                Ok((ui, pid, compact)) => Ok(spec_header(dst, src, ui, pid, compact, data.len() as u16)),
            }
        },
    }
}

proof fn lemma_or_zero(x: u8)
    ensures
        x | 0u8 == x,
{
    assert(x | 0u8 == x) by (bit_vector);
}

proof fn lemma_lane_bit(value: u16, i: u16)
    requires
        i < 16,
    ensures
        (value & (1u16 << i) != 0) == ((value >> i) & 1u16 == 1u16),
{
    assert((value & (1u16 << i) != 0) == ((value >> i) & 1u16 == 1u16)) by (bit_vector)
        requires
            i < 16,
    ;
}

pub(crate) fn set_lane(header: &mut [u8; 13], bit: u8, end: usize, width: usize, value: u16)
    requires
        end < 13,
        width <= end + 1,
        width <= 16,
    ensures
        forall|k: int|
            0 <= k < 13 ==> final(header)@[k] == old(header)@[k] | (if lane(
                value,
                end as int,
                width as int,
                k,
            ) { bit } else { 0u8 }),
{
    let mut i: usize = 0;
    assert forall|k: int| 0 <= k < 13 implies header@[k] == old(header)@[k] | 0u8 by {
        lemma_or_zero(old(header)@[k]);
    }
    while i < width
        invariant
            i <= width <= end + 1 <= 13,
            width <= 16,
            header@.len() == 13,
            forall|k: int|
                0 <= k < 13 ==> header@[k] == old(header)@[k] | (if end - i < k <= end && lane(
                    value,
                    end as int,
                    width as int,
                    k,
                ) { bit } else { 0u8 }),
        decreases width - i,
    {
        proof {
            lemma_lane_bit(value, i as u16);
            assert((end - (end - i)) as u16 == i as u16);
        }
        if value & (1 << i) != 0 {
            header[end - i] = header[end - i] | bit;
        }
        proof {
            assert forall|k: int| 0 <= k < 13 implies header@[k] == old(header)@[k] | (if end - (i
                + 1) < k <= end && lane(value, end as int, width as int, k) { bit } else { 0u8 }) by {
                lemma_or_zero(old(header)@[k]);
            }
        }
        i += 1;
    }
}

/// The lane of `width` bytes starting at `start`, read as a number, most significant first.
pub open spec fn get_lane_spec(h: Seq<u8>, bit: u8, start: int, n: nat) -> u16
    decreases n,
{
    if n == 0 {
        0u16
    } else {
        (get_lane_spec(h, bit, start, (n - 1) as nat) << 1u16) | (if h[start + n - 1] & bit != 0 {
            1u16
        } else {
            0u16
        })
    }
}

fn get_lane(header: &[u8; 13], bit: u8, end: usize, width: usize) -> (value: u16)
    requires
        end < 13,
        width <= end + 1,
    ensures
        value == get_lane_spec(header@, bit, end + 1 - width, width as nat),
{
    let start = end + 1 - width;
    let mut value: u16 = 0;
    let mut n: usize = 0;
    while n < width
        invariant
            n <= width <= end + 1 <= 13,
            start == end + 1 - width,
            value == get_lane_spec(header@, bit, start as int, n as nat),
        decreases width - n,
    {
        let b: u16 = if header[start + n] & bit != 0 {
            1
        } else {
            0
        };
        value = (value << 1) | b;
        n += 1;
    }
    value
}

fn bool_bit(b: bool) -> (r: u8)
    ensures
        r == flag(b),
{
    if b {
        1
    } else {
        0
    }
}

fn set_calls(header: &mut [u8; 13], dst: Call, src: Call)
    requires
        call_parts_valid(dst.spec_name(), dst.spec_ssid()),
        call_parts_valid(src.spec_name(), src.spec_ssid()),
    ensures
        forall|k: int| 0 <= k < 13 ==> final(header)@[k] == header_base(dst, src, k),
{
    let dst_name = dst.name();
    let src_name = src.name();
    let mut i: usize = 0;
    while i < 6
        invariant
            i <= 6,
            header@.len() == 13,
            dst_name@ == dst.spec_name(),
            src_name@ == src.spec_name(),
            call_parts_valid(dst.spec_name(), dst.spec_ssid()),
            call_parts_valid(src.spec_name(), src.spec_ssid()),
            forall|k: int| 0 <= k < i ==> header@[k] == header_base(dst, src, k),
            forall|k: int| 6 <= k < 6 + i ==> header@[k] == header_base(dst, src, k),
        decreases 6 - i,
    {
        assert(0x20 <= dst_name@[i as int] && 0x20 <= src_name@[i as int]);
        header[i] = dst_name[i] - 0x20;
        header[6 + i] = src_name[i] - 0x20;
        i += 1;
    }
    header[12] = (dst.ssid() << 4) | src.ssid();
}

/// The six printable characters carried by the six-bit values of `s`.
pub open spec fn get_call_spec(s: Seq<u8>) -> Seq<u8> {
    Seq::new(6, |i: int| ((s[i] & 0x3fu8) + 0x20u8) as u8)
}

proof fn lemma_sixbit(x: u8)
    ensures
        0x20 <= ((x & 0x3fu8) + 0x20u8) as u8 <= 0x5f,
        x >> 4u8 <= 15,
        x & 0x0fu8 <= 15,
        x & 0x3fu8 <= 0x3f,
{
    assert(0x20 <= ((x & 0x3fu8) + 0x20u8) as u8 <= 0x5f && x >> 4u8 <= 15 && x & 0x0fu8 <= 15
        && x & 0x3fu8 <= 0x3f) by (bit_vector);
}

fn get_call(header: &[u8; 13], offset: usize) -> (name: [u8; 6])
    requires
        offset == 0 || offset == 6,
    ensures
        name@ == get_call_spec(header@.subrange(offset as int, offset + 6)),
        call_parts_valid(name@, 0),
{
    let mut name = [0u8; 6];
    let mut i: usize = 0;
    while i < 6
        invariant
            i <= 6,
            offset == 0 || offset == 6,
            name@.len() == 6,
            forall|t: int|
                0 <= t < i ==> name@[t] == ((header@[offset + t] & 0x3fu8) + 0x20u8) as u8,
            forall|t: int| 0 <= t < i ==> 0x20 <= #[trigger] name@[t] <= 0x5f,
        decreases 6 - i,
    {
        proof {
            lemma_sixbit(header@[offset + i]);
        }
        name[i] = (header[offset + i] & 0x3f) + 0x20;
        i += 1;
    }
    assert(name@ =~= get_call_spec(header@.subrange(offset as int, offset + 6)));
    name
}

/// The control field described by the header's UI flag, PID lane and compact control.
pub open spec fn spec_control(ui: bool, pid: u8, compact: u8) -> Option<Control> {
    let poll = compact & 0x40u8 != 0;
    let command = compact & 0x04u8 != 0;
    if pid == 0 {
        if ui {
            None
        } else {
            Some(
                Control::S {
                    nr: (compact >> 3u8) & 7u8,
                    poll,
                    command,
                    kind: s_kind_spec(compact & 3u8),
                },
            )
        }
    } else if pid == 1 {
        let opcode = (compact >> 3u8) & 7u8;
        if ui || opcode == 5 {
            None
        } else {
            Some(Control::U { poll, command, kind: u_kind_spec(opcode, Pid::spec_from_code(15)) })
        }
    } else if pid > 15 {
        None
    } else if ui {
        if (compact >> 3u8) & 7u8 != 5 {
            None
        } else {
            Some(Control::U { poll, command, kind: UKind::Ui(Pid::spec_from_code(pid)) })
        }
    } else {
        Some(
            Control::I {
                nr: (compact >> 3u8) & 7u8,
                ns: compact & 7u8,
                poll,
                pid: Pid::spec_from_code(pid),
            },
        )
    }
}

/// The translated frame that a header and its payload describe, if any.
pub open spec fn spec_decode(h: Seq<u8>, data: Seq<u8>) -> Option<FrameView> {
    let ui = h[0] & 0x40u8 != 0;
    let pid = get_lane_spec(h, 0x40, 1, 4) as u8;
    let compact = get_lane_spec(h, 0x40, 5, 7) as u8;
    let dst = Call::spec_from_parts(get_call_spec(h.subrange(0, 6)), h[12] >> 4u8);
    let src = Call::spec_from_parts(get_call_spec(h.subrange(6, 12)), h[12] & 0x0fu8);
    match spec_control(ui, pid, compact) {
        None => None,
        Some(control) => Some(FrameView::Translated { dst, src, control, data }),
    }
}

/// A cleared header holding only the two station names and SSIDs.
pub open spec fn calls_header(dst: Call, src: Call) -> Seq<u8> {
    Seq::new(13, |k: int| header_base(dst, src, k))
}

/// Write the translated header of `frame`. A frame refused for its control field leaves the
/// header cleared but for the station names and SSIDs.
pub(crate) fn encode(frame: &Frame, header: &mut [u8; 13]) -> (r: Result<(), Error>)
    ensures
        match spec_encode(frame@) {
            Ok(h) => r == Ok::<(), Error>(()) && final(header)@ == h,
            Err(e) => r == Err::<(), Error>(e) && final(header)@ == match frame@ {
                FrameView::Translated { dst, src, data, .. } => if data.len() <= 1023 {
                    calls_header(dst, src)
                } else {
                    old(header)@
                },
                _ => old(header)@,
            },
        },
{
    let (dst, src, control, data) = match frame {
        Frame::Translated { dst, src, control, data } => (dst, src, control, data),
        Frame::Transparent(_) => {
            return Err(Error::Frame);
        },
    };
    if data.len() > 1023 {
        return Err(Error::TooLong);
    }
    let d = *dst;
    let s = *src;
    let _ = d.name();
    let _ = s.name();
    *header = [0u8; 13];
    set_calls(header, d, s);
    assert(header@ =~= calls_header(d, s));
    let (ui, pid, compact): (bool, u8, u8) = match *control {
        Control::I { nr, ns, poll, pid } => {
            if nr > 7 || ns > 7 {
                return Err(Error::Frame);
            }
            (false, pid.code(), (bool_bit(poll) << 6) | (nr << 3) | ns)
        },
        Control::S { nr, poll, command, kind } => {
            if nr > 7 {
                return Err(Error::Frame);
            }
            (false, 0, (bool_bit(poll) << 6) | (nr << 3) | (bool_bit(command) << 2) | s_code(kind))
        },
        Control::U { poll, command, kind } => {
            let opcode = u_code(kind);
            let pid = match kind {
                UKind::Ui(pid) => pid.code(),
                _ => 1,
            };
            (opcode == 5, pid, (bool_bit(poll) << 6) | (opcode << 3) | (bool_bit(command) << 2))
        },
    };
    let ghost count = data@.len() as u16;
    let ghost h0 = header@;
    if ui {
        header[0] = header[0] | 0x40;
    }
    proof {
        assert forall|k: int| 0 <= k < 13 implies header@[k] == h0[k] | (if k == 0 && ui {
            0x40u8
        } else {
            0u8
        }) by {
            lemma_or_zero(h0[k]);
        }
    }
    set_lane(header, 0x40, 4, 4, pid as u16);
    set_lane(header, 0x40, 11, 7, compact as u16);
    let ghost h3 = header@;
    header[1] = header[1] | 0x80;
    proof {
        assert forall|k: int| 0 <= k < 13 implies header@[k] == h3[k] | (if k == 1 {
            0x80u8
        } else {
            0u8
        }) by {
            lemma_or_zero(h3[k]);
        }
    }
    set_lane(header, 0x80, 11, 10, data.len() as u16);
    assert(header@ =~= spec_header(d, s, ui, pid, compact, count));
    Ok(())
}

/// The translated frame described by `header`, carrying `data`.
pub(crate) fn decode(header: &[u8; 13], data: Vec<u8>) -> (r: Option<Frame>)
    ensures
        match spec_decode(header@, data@) {
            Some(v) => r is Some && r->0@ == v,
            None => r is None,
        },
{
    let ui = header[0] & 0x40 != 0;
    let pid = get_lane(header, 0x40, 4, 4) as u8;
    let compact = get_lane(header, 0x40, 11, 7) as u8;
    proof {
        lemma_sixbit(header@[12]);
    }
    let dst = Call::from_parts(get_call(header, 0), header[12] >> 4);
    let src = Call::from_parts(get_call(header, 6), header[12] & 0x0f);
    let poll = compact & 0x40 != 0;
    let command = compact & 0x04 != 0;

    let control = if pid == 0 {
        if ui {
            return None;
        }
        Control::S { nr: (compact >> 3) & 7, poll, command, kind: s_kind(compact & 3) }
    } else if pid == 1 {
        let opcode = (compact >> 3) & 7;
        if ui || opcode == 5 {
            return None;
        }
        let none = Pid::NONE();
        proof {
            Pid::lemma_code(15);
        }
        Control::U { poll, command, kind: u_kind(opcode, none) }
    } else {
        let pid = match Pid::new(pid) {
            Ok(pid) => pid,
            Err(_) => {
                return None;
            },
        };
        proof {
            Pid::lemma_code(pid.spec_code());
        }
        if ui {
            if (compact >> 3) & 7 != 5 {
                return None;
            }
            Control::U { poll, command, kind: UKind::Ui(pid) }
        } else {
            Control::I { nr: (compact >> 3) & 7, ns: compact & 7, poll, pid }
        }
    };
    Some(Frame::Translated { dst, src, control, data })
}

/// Whether the AX.25 frame for a control field is a command.
pub open spec fn command_spec(control: Control) -> bool {
    match control {
        Control::I { .. } => true,
        Control::S { command, .. } => command,
        Control::U { command, .. } => command,
    }
}

fn command(control: Control) -> (r: bool)
    ensures
        r == command_spec(control),
{
    match control {
        Control::I { .. } => true,
        Control::S { command, .. } => command,
        Control::U { command, .. } => command,
    }
}

pub open spec fn u_control_spec(code: u8) -> u8 {
    seq![0x2fu8, 0x43, 0x0f, 0x63, 0x87, 0x03, 0xaf, 0xe3][code as int]
}

/// The AX.25 control byte and, for I and UI frames, the AX.25 PID byte.
pub open spec fn control_bytes_spec(control: Control) -> (u8, Option<u8>) {
    match control {
        Control::I { nr, ns, poll, pid } => (
            (nr << 5u8) | (flag(poll) << 4u8) | (ns << 1u8),
            Some(ax_pid_spec(pid)),
        ),
        Control::S { nr, poll, kind, .. } => (
            (nr << 5u8) | (flag(poll) << 4u8) | (s_code_spec(kind) << 2u8) | 1u8,
            None,
        ),
        Control::U { poll, kind, .. } => (
            u_control_spec(u_code_spec(kind)) | (flag(poll) << 4u8),
            match kind {
                UKind::Ui(pid) => Some(ax_pid_spec(pid)),
                _ => None,
            },
        ),
    }
}

fn control_bytes(control: Control) -> (r: (u8, Option<u8>))
    ensures
        r == control_bytes_spec(control),
{
    match control {
        Control::I { nr, ns, poll, pid } => (
            (nr << 5) | (bool_bit(poll) << 4) | (ns << 1),
            Some(ax_pid(pid)),
        ),
        Control::S { nr, poll, kind, .. } => (
            (nr << 5) | (bool_bit(poll) << 4) | (s_code(kind) << 2) | 1,
            None,
        ),
        Control::U { poll, kind, .. } => {
            let table: [u8; 8] = [0x2f, 0x43, 0x0f, 0x63, 0x87, 0x03, 0xaf, 0xe3];
            assert(table@ =~= seq![0x2fu8, 0x43, 0x0f, 0x63, 0x87, 0x03, 0xaf, 0xe3]);
            let pid = match kind {
                UKind::Ui(pid) => Some(ax_pid(pid)),
                _ => None,
            };
            (table[u_code(kind) as usize] | (bool_bit(poll) << 4), pid)
        },
    }
}

/// An AX.25 address name: each character shifted left by one.
pub open spec fn shifted_name(name: Seq<u8>) -> Seq<u8> {
    Seq::new(name.len(), |i: int| name[i] << 1u8)
}

/// The AX.25 frame equivalent to a translated frame, or `Error::Frame` for a transparent one.
pub open spec fn spec_ax25_bytes(f: FrameView) -> Result<Seq<u8>, Error> {
    match f {
        FrameView::Transparent(_) => Err(Error::Frame),
        FrameView::Translated { dst, src, control, data } => {
            let cmd = command_spec(control);
            let (c, pid) = control_bytes_spec(control);
            Ok(
                shifted_name(dst.spec_name()) + seq![
                    0x60u8 | (dst.spec_ssid() << 1u8) | (flag(cmd) << 7u8),
                ] + shifted_name(src.spec_name()) + seq![
                    0x61u8 | (src.spec_ssid() << 1u8) | (flag(!cmd) << 7u8),
                ] + seq![c] + match pid {
                    Some(p) => seq![p],
                    None => Seq::<u8>::empty(),
                } + data,
            )
        },
    }
}

fn push_shifted_name(out: &mut Vec<u8>, name: &[u8; 6])
    ensures
        final(out)@ == old(out)@ + shifted_name(name@),
{
    let mut i: usize = 0;
    while i < 6
        invariant
            i <= 6,
            out@ == old(out)@ + shifted_name(name@).take(i as int),
        decreases 6 - i,
    {
        out.push(name[i] << 1);
        i += 1;
        assert(out@ =~= old(out)@ + shifted_name(name@).take(i as int));
    }
    assert(shifted_name(name@).take(6) =~= shifted_name(name@));
}

/// Generate the AX.25 frame equivalent to a translated frame.
pub(crate) fn gen_frame(frame: &Frame) -> (r: Result<Vec<u8>, Error>)
    ensures
        match spec_ax25_bytes(frame@) {
            Ok(b) => r is Ok && r->Ok_0@ == b,
            Err(e) => r == Err::<Vec<u8>, Error>(e),
        },
{
    let (dst, src, control, data) = match frame {
        Frame::Translated { dst, src, control, data } => (dst, src, control, data),
        Frame::Transparent(_) => {
            return Err(Error::Frame);
        },
    };
    let command = command(*control);
    let mut out: Vec<u8> = Vec::new();
    push_shifted_name(&mut out, dst.name());
    out.push(0x60 | (dst.ssid() << 1) | (bool_bit(command) << 7));
    push_shifted_name(&mut out, src.name());
    out.push(0x61 | (src.ssid() << 1) | (bool_bit(!command) << 7));
    let (c, pid) = control_bytes(*control);
    out.push(c);
    match pid {
        Some(p) => out.push(p),
        None => {},
    }
    let ghost before = out@;
    let mut i: usize = 0;
    while i < data.len()
        invariant
            i <= data@.len(),
            out@ == before + data@.take(i as int),
        decreases data@.len() - i,
    {
        out.push(data[i]);
        i += 1;
        assert(out@ =~= before + data@.take(i as int));
    }
    assert(data@.take(data@.len() as int) =~= data@);
    let ghost cmd = command_spec(*control);
    assert(out@ =~= spec_ax25_bytes(frame@)->Ok_0);
    Ok(out)
}

proof fn lemma_header_byte_bits(base: u8, a: bool, b: bool, c: bool, d: bool, e: bool)
    ensures
        ({
            let h = base | (if a { 0x40u8 } else { 0u8 }) | (if b { 0x40u8 } else { 0u8 }) | (if c {
                0x40u8
            } else {
                0u8
            }) | (if d { 0x80u8 } else { 0u8 }) | (if e { 0x80u8 } else { 0u8 });
            &&& base <= 0x3f ==> (h & 0x40u8 != 0) == (a || b || c)
            &&& base <= 0x3f ==> (h & 0x80u8 != 0) == (d || e)
            &&& base <= 0x3f ==> h & 0x3fu8 == base
            &&& (!a && !b && !c && !d && !e) ==> h == base
        }),
{
    assert({
        let h = base | (if a { 0x40u8 } else { 0u8 }) | (if b { 0x40u8 } else { 0u8 }) | (if c {
            0x40u8
        } else {
            0u8
        }) | (if d { 0x80u8 } else { 0u8 }) | (if e { 0x80u8 } else { 0u8 });
        &&& base <= 0x3f ==> (h & 0x40u8 != 0) == (a || b || c)
        &&& base <= 0x3f ==> (h & 0x80u8 != 0) == (d || e)
        &&& base <= 0x3f ==> h & 0x3fu8 == base
        &&& (!a && !b && !c && !d && !e) ==> h == base
    }) by (bit_vector);
}

proof fn lemma_lane_step(v: u16, m: u16)
    requires
        m < 15,
    ensures
        ((v >> ((m + 1) as u16)) << 1u16) | (if (v >> m) & 1u16 == 1u16 { 1u16 } else { 0u16 }) == v
            >> m,
{
    let m1 = (m + 1) as u16;
    assert(((v >> m1) << 1u16) | (if (v >> m) & 1u16 == 1u16 { 1u16 } else { 0u16 }) == v >> m)
        by (bit_vector)
        requires
            m < 15,
            m1 == m + 1,
    ;
}

/// Reading back a lane gives the value whose bits it carries.
pub proof fn lemma_get_lane(h: Seq<u8>, bit: u8, start: int, width: nat, value: u16)
    requires
        1 <= width <= 14,
        0 <= start,
        start + width <= h.len(),
        value >> (width as u16) == 0,
        forall|k: int|
            start <= k < start + width ==> (#[trigger] h[k] & bit != 0) == lane(
                value,
                start + width - 1,
                width as int,
                k,
            ),
    ensures
        get_lane_spec(h, bit, start, width) == value,
{
    lemma_get_lane_prefix(h, bit, start, width, value, width);
    assert(value >> 0u16 == value) by (bit_vector);
}

proof fn lemma_get_lane_prefix(h: Seq<u8>, bit: u8, start: int, width: nat, value: u16, n: nat)
    requires
        1 <= width <= 14,
        n <= width,
        0 <= start,
        start + width <= h.len(),
        value >> (width as u16) == 0,
        forall|k: int|
            start <= k < start + width ==> (#[trigger] h[k] & bit != 0) == lane(
                value,
                start + width - 1,
                width as int,
                k,
            ),
    ensures
        get_lane_spec(h, bit, start, n) == value >> ((width - n) as u16),
    decreases n,
{
    if n > 0 {
        lemma_get_lane_prefix(h, bit, start, width, value, (n - 1) as nat);
        let k = start + n - 1;
        assert(h[k] & bit != 0 == lane(value, start + width - 1, width as int, k));
        assert((start + width - 1 - k) as u16 == (width - n) as u16);
        lemma_lane_step(value, (width - n) as u16);
        assert((width - (n - 1)) as u16 == ((width - n) as u16 + 1) as u16);
    }
}

pub(crate) proof fn lemma_compact(p: bool, cm: bool, nr: u8, ns: u8, sc: u8, op: u8)
    requires
        nr <= 7,
        ns <= 7,
        sc <= 3,
        op <= 7,
    ensures
        ({
            let ci = (flag(p) << 6u8) | (nr << 3u8) | ns;
            let cs = (flag(p) << 6u8) | (nr << 3u8) | (flag(cm) << 2u8) | sc;
            let cu = (flag(p) << 6u8) | (op << 3u8) | (flag(cm) << 2u8);
            &&& (ci >> 3u8) & 7u8 == nr && ci & 7u8 == ns && (ci & 0x40u8 != 0) == p && ci < 128
            &&& (cs >> 3u8) & 7u8 == nr && cs & 3u8 == sc && (cs & 0x40u8 != 0) == p && (cs & 0x04u8
                != 0) == cm && cs < 128
            &&& (cu >> 3u8) & 7u8 == op && (cu & 0x40u8 != 0) == p && (cu & 0x04u8 != 0) == cm && cu
                < 128
            &&& (nr << 5u8) | (flag(p) << 4u8) | (sc << 2u8) | 1u8 == (nr << 5u8) | (flag(p) << 4u8) | (
            if sc == 0 {
                0x01u8
            } else if sc == 1 {
                0x05u8
            } else if sc == 2 {
                0x09u8
            } else {
                0x0du8
            })
        }),
{
    assert({
        let ci = (flag(p) << 6u8) | (nr << 3u8) | ns;
        let cs = (flag(p) << 6u8) | (nr << 3u8) | (flag(cm) << 2u8) | sc;
        let cu = (flag(p) << 6u8) | (op << 3u8) | (flag(cm) << 2u8);
        &&& (ci >> 3u8) & 7u8 == nr && ci & 7u8 == ns && (ci & 0x40u8 != 0) == p && ci < 128
        &&& (cs >> 3u8) & 7u8 == nr && cs & 3u8 == sc && (cs & 0x40u8 != 0) == p && (cs & 0x04u8
            != 0) == cm && cs < 128
        &&& (cu >> 3u8) & 7u8 == op && (cu & 0x40u8 != 0) == p && (cu & 0x04u8 != 0) == cm && cu
            < 128
        &&& (nr << 5u8) | (flag(p) << 4u8) | (sc << 2u8) | 1u8 == (nr << 5u8) | (flag(p) << 4u8) | (
        if sc == 0 {
            0x01u8
        } else if sc == 1 {
            0x05u8
        } else if sc == 2 {
            0x09u8
        } else {
            0x0du8
        })
    }) by (bit_vector)
        requires
            nr <= 7,
            ns <= 7,
            sc <= 3,
            op <= 7,
    ;
}

pub(crate) proof fn lemma_small_lanes(pid: u8, compact: u8, count: u16, ds: u8, ss: u8)
    requires
        pid < 16,
        compact < 128,
        count <= 1023,
        ds <= 15,
        ss <= 15,
    ensures
        (pid as u16) >> 4u16 == 0,
        (compact as u16) >> 7u16 == 0,
        count >> 10u16 == 0,
        ((ds << 4u8) | ss) >> 4u8 == ds,
        ((ds << 4u8) | ss) & 0x0fu8 == ss,
{
    assert((pid as u16) >> 4u16 == 0 && (compact as u16) >> 7u16 == 0 && count >> 10u16 == 0 && ((
    ds << 4u8) | ss) >> 4u8 == ds && ((ds << 4u8) | ss) & 0x0fu8 == ss) by (bit_vector)
        requires
            pid < 16,
            compact < 128,
            count <= 1023,
            ds <= 15,
            ss <= 15,
    ;
}

/// The bits of a header built by `spec_header`, lane by lane.
pub proof fn lemma_header_fields(
    dst: Call,
    src: Call,
    ui: bool,
    pid: u8,
    compact: u8,
    count: u16,
)
    requires
        call_parts_valid(dst.spec_name(), dst.spec_ssid()),
        call_parts_valid(src.spec_name(), src.spec_ssid()),
        pid < 16,
        compact < 128,
        count <= 1023,
    ensures
        ({
            let h = spec_header(dst, src, ui, pid, compact, count);
            &&& h.len() == 13
            &&& (h[0] & 0x40u8 != 0) == ui
            &&& h[0] & 0x80u8 == 0
            &&& h[12] == (dst.spec_ssid() << 4u8) | src.spec_ssid()
            &&& h[12] >> 4u8 == dst.spec_ssid()
            &&& h[12] & 0x0fu8 == src.spec_ssid()
            &&& h[1] & 0x80u8 != 0
            &&& get_lane_spec(h, 0x40, 1, 4) == pid as u16
            &&& get_lane_spec(h, 0x40, 5, 7) == compact as u16
            &&& get_lane_spec(h, 0x80, 2, 10) == count
            &&& get_call_spec(h.subrange(0, 6)) == dst.spec_name()
            &&& get_call_spec(h.subrange(6, 12)) == src.spec_name()
        }),
{
    let h = spec_header(dst, src, ui, pid, compact, count);
    lemma_small_lanes(pid, compact, count, dst.spec_ssid(), src.spec_ssid());
    assert forall|k: int| 0 <= k < 12 implies {
        &&& (#[trigger] h[k] & 0x40u8 != 0) == ((k == 0 && ui) || lane(pid as u16, 4, 4, k) || lane(
            compact as u16,
            11,
            7,
            k,
        ))
        &&& (h[k] & 0x80u8 != 0) == (k == 1 || lane(count, 11, 10, k))
        &&& h[k] & 0x3fu8 == header_base(dst, src, k)
    } by {
        let name = if k < 6 { dst.spec_name() } else { src.spec_name() };
        let i = if k < 6 { k } else { k - 6 };
        assert(0x20 <= name[i] <= 0x5f);
        lemma_header_byte_bits(
            header_base(dst, src, k),
            k == 0 && ui,
            lane(pid as u16, 4, 4, k),
            lane(compact as u16, 11, 7, k),
            k == 1,
            lane(count, 11, 10, k),
        );
    }
    lemma_header_byte_bits(header_base(dst, src, 12), false, false, false, false, false);
    assert(!lane(pid as u16, 4, 4, 12) && !lane(compact as u16, 11, 7, 12) && !lane(count, 11, 10, 12));
    lemma_get_lane(h, 0x40, 1, 4, pid as u16);
    lemma_get_lane(h, 0x40, 5, 7, compact as u16);
    lemma_get_lane(h, 0x80, 2, 10, count);
    assert(get_call_spec(h.subrange(0, 6)) =~= dst.spec_name());
    assert(get_call_spec(h.subrange(6, 12)) =~= src.spec_name());
}

/// A frame whose stations and protocol identifiers are valid, as every constructed frame's are.
pub open spec fn frame_valid(f: FrameView) -> bool {
    match f {
        FrameView::Transparent(_) => true,
        FrameView::Translated { dst, src, control, .. } => {
            &&& call_parts_valid(dst.spec_name(), dst.spec_ssid())
            &&& call_parts_valid(src.spec_name(), src.spec_ssid())
            &&& control_valid(control)
        },
    }
}

/// Reading a translated header back gives the frame it was written from.
pub proof fn lemma_header_roundtrip(f: FrameView)
    requires
        frame_valid(f),
        spec_encode(f) is Ok,
    ensures
        spec_decode(spec_encode(f)->Ok_0, f->Translated_data) == Some(f),
{
    match f {
        FrameView::Transparent(_) => {},
        FrameView::Translated { dst, src, control, data } => {
            let (ui, pid, compact) = control_fields(control)->Ok_0;
            let count = data.len() as u16;
            let h = spec_header(dst, src, ui, pid, compact, count);
            match control {
                Control::I { nr, ns, poll, pid: p } => {
                    lemma_compact(poll, false, nr, ns, 0, 0);
                    Pid::lemma_code(p.spec_code());
                },
                Control::S { nr, poll, command, kind } => {
                    lemma_compact(poll, command, nr, 0, s_code_spec(kind), 0);
                },
                Control::U { poll, command, kind } => {
                    lemma_compact(poll, command, 0, 0, 0, u_code_spec(kind));
                    match kind {
                        UKind::Ui(p) => {
                            Pid::lemma_code(p.spec_code());
                        },
                        _ => {},
                    }
                },
            }
            lemma_header_fields(dst, src, ui, pid, compact, count);
            Call::lemma_parts(dst.spec_name(), dst.spec_ssid());
            Call::lemma_parts(src.spec_name(), src.spec_ssid());
            assert(get_lane_spec(h, 0x40, 1, 4) as u8 == pid);
            assert(get_lane_spec(h, 0x40, 5, 7) as u8 == compact);
        },
    }
}

/// Supervisory frames carry the AX.25 supervisory function: the AX.25 control byte is
/// `N(R) P 0 0 0 1` for RR, `... 0 1 0 1` for RNR, `... 1 0 0 1` for REJ and `... 1 1 0 1`
/// for SREJ, the header's two-bit code is that function (RR 0, RNR 1, REJ 2, SREJ 3), and
/// decoding the header's compact control gives the same supervisory frame back.
pub proof fn lemma_supervisory_codes(nr: u8, poll: bool, command: bool, kind: SKind)
    requires
        nr <= 7,
    ensures
        control_bytes_spec((Control::S { nr, poll, command, kind })).0 == (nr << 5u8) | (flag(poll)
            << 4u8) | (match kind {
            SKind::Rr => 0x01u8,
            SKind::Rnr => 0x05u8,
            SKind::Rej => 0x09u8,
            SKind::Srej => 0x0du8,
        }),
        control_fields((Control::S { nr, poll, command, kind })) == Ok::<(bool, u8, u8), Error>(
            (
                false,
                0u8,
                (flag(poll) << 6u8) | (nr << 3u8) | (flag(command) << 2u8) | (match kind {
                    SKind::Rr => 0u8,
                    SKind::Rnr => 1u8,
                    SKind::Rej => 2u8,
                    SKind::Srej => 3u8,
                }),
            ),
        ),
        forall|code: u8|
            code < 4 ==> ((#[trigger] s_kind_spec(code) == SKind::Rr) == (code == 0) && (s_kind_spec(code)
                == SKind::Rnr) == (code == 1) && (s_kind_spec(code) == SKind::Rej) == (code == 2) && (
            s_kind_spec(code) == SKind::Srej) == (code == 3)),
        spec_control(
            false,
            0u8,
            (flag(poll) << 6u8) | (nr << 3u8) | (flag(command) << 2u8) | s_code_spec(kind),
        ) == Some((Control::S { nr, poll, command, kind })),
{
    lemma_compact(poll, command, nr, 0, s_code_spec(kind), 0);
}

/// Unnumbered frames carry the AX.25 unnumbered command: with the poll/final bit clear the
/// AX.25 control byte is 0x2f for SABM, 0x43 for DISC, 0x0f for DM, 0x63 for UA, 0x87 for
/// FRMR, 0x03 for UI, 0xaf for XID and 0xe3 for TEST; the header's opcode numbers them 0 to
/// 7 in that order; and decoding the header's compact control gives the same frame back.
pub proof fn lemma_unnumbered_codes(poll: bool, command: bool, kind: UKind)
    requires
        control_valid((Control::U { poll, command, kind })),
    ensures
        control_bytes_spec((Control::U { poll, command, kind })).0 == (match kind {
            UKind::Sabm => 0x2fu8,
            UKind::Disc => 0x43u8,
            UKind::Dm => 0x0fu8,
            UKind::Ua => 0x63u8,
            UKind::Frmr => 0x87u8,
            UKind::Ui(_) => 0x03u8,
            UKind::Xid => 0xafu8,
            UKind::Test => 0xe3u8,
        }) | (flag(poll) << 4u8),
        control_fields((Control::U { poll, command, kind })) matches Ok((ui, pid, compact)) && (
        compact >> 3u8) & 7u8 == (match kind {
            UKind::Sabm => 0u8,
            UKind::Disc => 1u8,
            UKind::Dm => 2u8,
            UKind::Ua => 3u8,
            UKind::Frmr => 4u8,
            UKind::Ui(_) => 5u8,
            UKind::Xid => 6u8,
            UKind::Test => 7u8,
        }) && ui == (kind is Ui) && spec_control(ui, pid, compact) == Some(
            (Control::U { poll, command, kind }),
        ),
{
    lemma_compact(poll, command, 0, 0, 0, u_code_spec(kind));
    match kind {
        UKind::Ui(pid) => {
            Pid::lemma_code(pid.spec_code());
        },
        _ => {},
    }
}

/// AX.25 protocol identifiers: ISO 8208 is 0x01, compressed and uncompressed TCP/IP 0x06 and
/// 0x07, segmentation 0x08, AX.25 layer 3 0x20, IP 0xcc, ARP 0xcd, FlexNet 0xce, TheNET
/// 0xcf, and the reserved and no-layer-3 codes 0xf0.
pub proof fn lemma_ax25_pids(pid: Pid)
    requires
        2 <= pid.spec_code() <= 15,
    ensures
        ax_pid_spec(pid) == (match pid.spec_code() {
            2u8 => 0x20u8,
            3u8 => 0x01u8,
            4u8 => 0x06u8,
            5u8 => 0x07u8,
            6u8 => 0x08u8,
            11u8 => 0xccu8,
            12u8 => 0xcdu8,
            13u8 => 0xceu8,
            14u8 => 0xcfu8,
            _ => 0xf0u8,
        }),
{
}

} // verus!
