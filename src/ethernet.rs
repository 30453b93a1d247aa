//! Link-layer values: MAC addresses and what the capture layer reports of a received frame.
use vstd::prelude::*;
use vstd::string::StringSliceAdditionalSpecFns;

verus! {

#[derive(Debug, Clone, Copy)]
pub struct MacAddress([u8; 6]);

#[derive(Debug, Clone, Copy, PartialEq, Eq, Structural)]
pub struct MacAddressParseError;

/// What the capture layer reports of a received frame: the payload length in bytes and the
/// kernel's receive timestamp.
#[derive(Debug, Clone, Copy, PartialEq, Eq, Structural)]
pub struct RecvInfo {
    pub length: usize,
    pub timestamp_s: i64,
    pub timestamp_ns: u32,
}

impl View for MacAddress {
    type V = Seq<u8>;

    closed spec fn view(&self) -> Seq<u8> {
        self.0@
    }
}

/// The value of a hexadecimal digit, either case.
pub open spec fn hex_digit_value(c: u8) -> Option<nat> {
    if 0x30 <= c <= 0x39 {
        Some((c - 0x30) as nat)
    } else if 0x41 <= c <= 0x46 {
        Some((c - 0x41 + 10) as nat)
    } else if 0x61 <= c <= 0x66 {
        Some((c - 0x61 + 10) as nat)
    } else {
        None
    }
}

/// Two characters read as an unsigned hexadecimal number, as `u8::from_str_radix(_, 16)` reads
/// them: two digits, or a plus sign and one digit.
pub open spec fn octet_value(a: u8, b: u8) -> Option<nat> {
    if a == 0x2B {
        hex_digit_value(b)
    } else {
        match (hex_digit_value(a), hex_digit_value(b)) {
            (Some(x), Some(y)) => Some(x * 16 + y),
            _ => None,
        }
    }
}

pub open spec fn is_separator(c: u8) -> bool {
    c == 0x2D || c == 0x3A
}

/// The text of a MAC address: six fields of two characters, separated by `-` or `:`.
pub open spec fn is_mac_text(b: Seq<u8>) -> bool {
    &&& b.len() == 17
    &&& forall|k: int| 0 <= k < 5 ==> is_separator(#[trigger] b[3 * k + 2])
    &&& forall|k: int| 0 <= k < 6 ==> (#[trigger] octet_value(b[3 * k], b[3 * k + 1])) is Some
}

/// The six octets that MAC address text names.
pub open spec fn mac_octets(b: Seq<u8>) -> Seq<u8> {
    Seq::new(6, |k: int| octet_value(b[3 * k], b[3 * k + 1])->Some_0 as u8)
}

fn hex_digit(c: u8) -> (r: Option<u8>)
    ensures
        match hex_digit_value(c) {
            Some(v) => r == Some(v as u8),
            None => r is None,
        },
{
    if 0x30 <= c && c <= 0x39 {
        Some(c - 0x30)
    } else if 0x41 <= c && c <= 0x46 {
        Some(c - 0x41 + 10)
    } else if 0x61 <= c && c <= 0x66 {
        Some(c - 0x61 + 10)
    } else {
        None
    }
}

fn octet(a: u8, b: u8) -> (r: Option<u8>)
    ensures
        match octet_value(a, b) {
            Some(v) => v < 256 && r == Some(v as u8),
            None => r is None,
        },
{
    if a == 0x2B {
        hex_digit(b)
    } else {
        match (hex_digit(a), hex_digit(b)) {
            (Some(x), Some(y)) => Some(x * 16 + y),
            _ => None,
        }
    }
}

impl MacAddress {
    pub fn to_bytes(self) -> (r: [u8; 6])
        ensures
            r@ == self@,
    {
        self.0
    }

    /// Parses MAC address text such as `01-0C-CD-04-00-01` or `01:0c:cd:04:00:01`.
    pub fn parse(s: &str) -> (r: Result<MacAddress, MacAddressParseError>)
        ensures
            is_mac_text(s.spec_bytes()) ==> (r matches Ok(m) && m@ == mac_octets(s.spec_bytes())),
            !is_mac_text(s.spec_bytes()) ==> r is Err,
    {
        let b = s.as_bytes();
        if b.len() != 17 {
            return Err(MacAddressParseError);
        }
        let mut octets: [u8; 6] = [0u8; 6];
        let mut k: usize = 0;
        while k < 6
            invariant
                k <= 6,
                b@ == s.spec_bytes(),
                b@.len() == 17,
                forall|j: int| 0 <= j < k && j < 5 ==> is_separator(#[trigger] b@[3 * j + 2]),
                forall|j: int| 0 <= j < k ==> (#[trigger] octet_value(b@[3 * j], b@[3 * j + 1])) is Some,
                forall|j: int| 0 <= j < k ==> octets@[j] == mac_octets(b@)[j],
            decreases 6 - k,
        {
            match octet(b[3 * k], b[3 * k + 1]) {
                Some(v) => {
                    octets[k] = v;
                },
                None => {
                    return Err(MacAddressParseError);
                },
            }
            if k < 5 && !(b[3 * k + 2] == 0x2D || b[3 * k + 2] == 0x3A) {
                return Err(MacAddressParseError);
            }
            k += 1;
        }
        proof {
            assert(octets@ =~= mac_octets(b@));
        }
        Ok(MacAddress(octets))
    }
}

} // verus!
