//! Station addresses, protocol identifiers, control fields and frames.
use vstd::prelude::*;
use crate::error::Error;
use vstd::string::StringSliceAdditionalSpecFns;

verus! {

/// The six name bytes and the SSID of a station are representable in an IL2P header:
/// printable characters `0x20..=0x5f` and a four-bit SSID.
pub open spec fn call_parts_valid(name: Seq<u8>, ssid: u8) -> bool {
    &&& name.len() == 6
    &&& forall|i: int| 0 <= i < 6 ==> 0x20 <= #[trigger] name[i] <= 0x5f
    &&& ssid <= 15
}

/// The characters accepted by `Call::new`: one to six printable characters and an SSID of
/// at most 15.
pub open spec fn call_name_ok(bytes: Seq<u8>, ssid: u8) -> bool {
    &&& 0 < bytes.len() <= 6
    &&& ssid <= 15
    &&& forall|i: int| 0 <= i < bytes.len() ==> 0x20 <= #[trigger] bytes[i] <= 0x5f
}

/// A name padded with spaces to six bytes.
pub open spec fn pad_name(bytes: Seq<u8>) -> Seq<u8> {
    Seq::new(6, |i: int| if i < bytes.len() { bytes[i] } else { 0x20u8 })
}

/// A callsign and four-bit secondary station identifier.
#[derive(Clone, Copy, Debug, PartialEq, Eq)]
pub struct Call {
    name: [u8; 6],
    ssid: u8,
}

impl Call {
    #[verifier::type_invariant]
    spec fn inv(self) -> bool {
        call_parts_valid(self.name@, self.ssid)
    }

    /// The six-byte, space-padded name.
    pub closed spec fn spec_name(self) -> Seq<u8> {
        self.name@
    }

    /// The secondary station identifier.
    pub closed spec fn spec_ssid(self) -> u8 {
        self.ssid
    }

    /// The station with the given six name bytes and SSID.
    pub closed spec fn spec_from_parts(name: Seq<u8>, ssid: u8) -> Call {
        Call { name: [name[0], name[1], name[2], name[3], name[4], name[5]], ssid }
    }

    /// A station is determined by its name and SSID, and `spec_from_parts` builds the
    /// station with the given ones.
    pub proof fn lemma_parts(name: Seq<u8>, ssid: u8)
        requires
            name.len() == 6,
        ensures
            Call::spec_from_parts(name, ssid).spec_name() == name,
            Call::spec_from_parts(name, ssid).spec_ssid() == ssid,
            forall|c: Call|
                c.spec_name() == name && c.spec_ssid() == ssid ==> c == Call::spec_from_parts(
                    name,
                    ssid,
                ),
    {
        let c0 = Call::spec_from_parts(name, ssid);
        assert(c0.name@ =~= name);
        assert forall|c: Call| c.spec_name() == name && c.spec_ssid() == ssid implies c == c0 by {
            assert(c.name =~= c0.name);
        }
    }

    /// Create a callsign, padding names shorter than six characters with spaces.
    pub fn new(name: &str, ssid: u8) -> (r: Result<Self, Error>)
        ensures
            (r is Ok) <==> (0 < name.spec_bytes().len() <= 6 && ssid <= 15 && forall|i: int|
                0 <= i < name.spec_bytes().len() ==> 0x20 <= #[trigger] name.spec_bytes()[i] <= 0x5f),
            r matches Ok(c) ==> c.spec_ssid() == ssid && c.spec_name().len() == 6 && forall|i: int|
                0 <= i < 6 ==> #[trigger] c.spec_name()[i] == (if i < name.spec_bytes().len() {
                    name.spec_bytes()[i]
                } else {
                    0x20u8
                }),
            match r {
                Ok(c) => call_name_ok(name.spec_bytes(), ssid) && c.spec_name() == pad_name(
                    name.spec_bytes(),
                ) && c.spec_ssid() == ssid,
                Err(e) => !call_name_ok(name.spec_bytes(), ssid) && e == Error::Frame,
            },
    {
        let bytes = name.as_bytes();
        if bytes.len() == 0 || bytes.len() > 6 || ssid > 0x0f {
            return Err(Error::Frame);
        }
        let mut i: usize = 0;
        while i < bytes.len()
            invariant
                i <= bytes@.len() <= 6,
                0 < bytes@.len(),
                ssid <= 15,
                bytes@ == name.spec_bytes(),
                forall|t: int| 0 <= t < i ==> 0x20 <= #[trigger] bytes@[t] <= 0x5f,
            decreases bytes@.len() - i,
        {
            if bytes[i] < 0x20 || bytes[i] > 0x5f {
                assert(!(0x20 <= bytes@[i as int] <= 0x5f));
                return Err(Error::Frame);
            }
            i += 1;
        }
        let mut padded = [0x20u8; 6];
        let mut i: usize = 0;
        while i < bytes.len()
            invariant
                i <= bytes@.len() <= 6,
                padded@.len() == 6,
                forall|t: int| 0 <= t < i ==> padded@[t] == bytes@[t],
                forall|t: int| i <= t < 6 ==> padded@[t] == 0x20u8,
            decreases bytes@.len() - i,
        {
            padded[i] = bytes[i];
            i += 1;
        }
        assert(padded@ =~= pad_name(bytes@));
        Ok(Self { name: padded, ssid })
    }

    /// A name is accepted exactly when it has one to six characters, each in `0x20..=0x5f`,
    /// and the SSID is at most 15; the stored name is the given characters followed by
    /// spaces up to six bytes.
    pub proof fn lemma_name_rules(bytes: Seq<u8>, ssid: u8)
        ensures
            call_name_ok(bytes, ssid) <==> (0 < bytes.len() <= 6 && ssid <= 15 && forall|i: int|
                0 <= i < bytes.len() ==> 0x20 <= #[trigger] bytes[i] <= 0x5f),
            pad_name(bytes).len() == 6,
            forall|i: int|
                0 <= i < bytes.len() && i < 6 ==> #[trigger] pad_name(bytes)[i] == bytes[i],
            forall|i: int| bytes.len() <= i < 6 ==> #[trigger] pad_name(bytes)[i] == 0x20u8,
            call_name_ok(bytes, ssid) ==> call_parts_valid(pad_name(bytes), ssid),
    {
    }

    /// Return the six-byte, space-padded name.
    pub fn name(&self) -> (r: &[u8; 6])
        ensures
            r@ == self.spec_name(),
            call_parts_valid(self.spec_name(), self.spec_ssid()),
    {
        proof {
            use_type_invariant(self);
        }
        &self.name
    }

    /// Return the secondary station identifier.
    pub fn ssid(&self) -> (r: u8)
        ensures
            r == self.spec_ssid(),
            call_parts_valid(self.spec_name(), self.spec_ssid()),
    {
        proof {
            use_type_invariant(self);
        }
        self.ssid
    }

    pub(crate) fn from_parts(name: [u8; 6], ssid: u8) -> (r: Self)
        requires
            call_parts_valid(name@, ssid),
        ensures
            r == Call::spec_from_parts(name@, ssid),
    {
        proof {
            Call::lemma_parts(name@, ssid);
        }
        let r = Self { name, ssid };
        assert(r.spec_name() == name@);
        r
    }
}

/// Four-bit protocol identifier used in a translated IL2P header.
#[derive(Clone, Copy, Debug, PartialEq, Eq)]
pub struct Pid(u8);

impl Pid {
    // The named IL2P protocol identifiers.
    #[allow(non_snake_case)]
    pub fn LAYER3() -> (r: Self)
        ensures
            r.spec_code() == 0x2u8,
    {
        Self(0x2)
    }
    #[allow(non_snake_case)]
    pub fn ISO_8208() -> (r: Self)
        ensures
            r.spec_code() == 0x3u8,
    {
        Self(0x3)
    }
    #[allow(non_snake_case)]
    pub fn TCP_COMPRESSED() -> (r: Self)
        ensures
            r.spec_code() == 0x4u8,
    {
        Self(0x4)
    }
    #[allow(non_snake_case)]
    pub fn TCP() -> (r: Self)
        ensures
            r.spec_code() == 0x5u8,
    {
        Self(0x5)
    }
    #[allow(non_snake_case)]
    pub fn SEGMENT() -> (r: Self)
        ensures
            r.spec_code() == 0x6u8,
    {
        Self(0x6)
    }
    #[allow(non_snake_case)]
    pub fn FUTURE_7() -> (r: Self)
        ensures
            r.spec_code() == 0x7u8,
    {
        Self(0x7)
    }
    #[allow(non_snake_case)]
    pub fn FUTURE_8() -> (r: Self)
        ensures
            r.spec_code() == 0x8u8,
    {
        Self(0x8)
    }
    #[allow(non_snake_case)]
    pub fn FUTURE_9() -> (r: Self)
        ensures
            r.spec_code() == 0x9u8,
    {
        Self(0x9)
    }
    #[allow(non_snake_case)]
    pub fn FUTURE_A() -> (r: Self)
        ensures
            r.spec_code() == 0xau8,
    {
        Self(0xa)
    }
    #[allow(non_snake_case)]
    pub fn IP() -> (r: Self)
        ensures
            r.spec_code() == 0xbu8,
    {
        Self(0xb)
    }
    #[allow(non_snake_case)]
    pub fn ARP() -> (r: Self)
        ensures
            r.spec_code() == 0xcu8,
    {
        Self(0xc)
    }
    #[allow(non_snake_case)]
    pub fn FLEXNET() -> (r: Self)
        ensures
            r.spec_code() == 0xdu8,
    {
        Self(0xd)
    }
    #[allow(non_snake_case)]
    pub fn THENET() -> (r: Self)
        ensures
            r.spec_code() == 0xeu8,
    {
        Self(0xe)
    }
    #[allow(non_snake_case)]
    pub fn NONE() -> (r: Self)
        ensures
            r.spec_code() == 0xfu8,
    {
        Self(0xf)
    }

    #[verifier::type_invariant]
    spec fn inv(self) -> bool {
        2 <= self.0 <= 15
    }

    /// The four-bit code.
    pub closed spec fn spec_code(self) -> u8 {
        self.0
    }

    /// The identifier with the given code.
    pub closed spec fn spec_from_code(code: u8) -> Pid {
        Pid(code)
    }

    pub proof fn lemma_code(code: u8)
        ensures
            Pid::spec_from_code(code).spec_code() == code,
            forall|p: Pid| p.spec_code() == code ==> p == Pid::spec_from_code(code),
    {
    }

    /// Create an identifier from its four-bit code.
    pub fn new(code: u8) -> (r: Result<Self, Error>)
        ensures
            match r {
                Ok(p) => 2 <= code <= 15 && p.spec_code() == code,
                Err(e) => !(2 <= code <= 15) && e == Error::Frame,
            },
    {
        if code >= 2 && code <= 0x0f {
            Ok(Self(code))
        } else {
            Err(Error::Frame)
        }
    }

    /// Get the four bit code.
    pub fn code(self) -> (r: u8)
        ensures
            r == self.spec_code(),
            2 <= r <= 15,
    {
        proof {
            use_type_invariant(self);
        }
        self.0
    }
}

/// Supervisory control opcode.
#[derive(Clone, Copy, Debug, PartialEq, Eq)]
pub enum SKind {
    Rr,
    Rnr,
    Rej,
    Srej,
}

/// Unnumbered control opcode.
#[derive(Clone, Copy, Debug, PartialEq, Eq)]
pub enum UKind {
    Sabm,
    Disc,
    Dm,
    Ua,
    Frmr,
    Ui(Pid),
    Xid,
    Test,
}

/// Control fields represented by a Type 1 header.
#[derive(Clone, Copy, Debug, PartialEq, Eq)]
pub enum Control {
    /// Information frame. Type 1 info frames are always commands.
    I { nr: u8, ns: u8, poll: bool, pid: Pid },
    /// Supervisory frame.
    S { nr: u8, poll: bool, command: bool, kind: SKind },
    /// Unnumbered frame.
    U { poll: bool, command: bool, kind: UKind },
}

/// Data carried by a packet.
#[derive(Clone, Debug, PartialEq, Eq)]
pub enum Frame {
    /// Type 0 opaque encapsulation.
    Transparent(Vec<u8>),
    /// Type 1 translated control, addressing, and information.
    Translated { dst: Call, src: Call, control: Control, data: Vec<u8> },
}

/// A frame with its bytes as a sequence.
pub enum FrameView {
    Transparent(Seq<u8>),
    Translated { dst: Call, src: Call, control: Control, data: Seq<u8> },
}

impl View for Frame {
    type V = FrameView;

    open spec fn view(&self) -> FrameView {
        match self {
            Frame::Transparent(data) => FrameView::Transparent(data@),
            Frame::Translated { dst, src, control, data } => FrameView::Translated {
                dst: *dst,
                src: *src,
                control: *control,
                data: data@,
            },
        }
    }
}

} // verus!
