use vstd::prelude::*;
use vstd::string::StringExecFns;

verus! {

/// The classful category of an address, decided by its first octet.
#[derive(Clone, Copy, PartialEq, Eq, Structural, Debug)]
pub enum AddrClass {
    ZeroReserved,
    ClassA,
    Loopback,
    ClassB,
    ClassC,
    ClassD,
    ClassE,
}

/// The class an address with first octet `o1` belongs to.
pub open spec fn spec_class(o1: u8) -> AddrClass {
    if o1 == 0 {
        AddrClass::ZeroReserved
    } else if o1 <= 126 {
        AddrClass::ClassA
    } else if o1 == 127 {
        AddrClass::Loopback
    } else if o1 <= 191 {
        AddrClass::ClassB
    } else if o1 <= 223 {
        AddrClass::ClassC
    } else if o1 <= 239 {
        AddrClass::ClassD
    } else {
        AddrClass::ClassE
    }
}

/// Whether the address lies in one of the RFC 1918 private ranges:
/// 10.0.0.0/8, 172.16.0.0/12 or 192.168.0.0/16.
pub open spec fn spec_is_private(o: [u8; 4]) -> bool {
    o[0] == 10 || (o[0] == 172 && 16 <= o[1] && o[1] <= 31) || (o[0] == 192 && o[1] == 168)
}

impl AddrClass {
    /// The text shown for this class.
    pub open spec fn spec_label(self) -> Seq<char> {
        match self {
            AddrClass::ZeroReserved => "Address with 0.x (reserved)"@,
            AddrClass::ClassA => "Class A"@,
            AddrClass::Loopback => "Loopback"@,
            AddrClass::ClassB => "Class B"@,
            AddrClass::ClassC => "Class C"@,
            AddrClass::ClassD => "Class D (multicast)"@,
            AddrClass::ClassE => "Class E (reserved)"@,
        }
    }

    /// The text shown for this class.
    pub fn label(&self) -> (r: &'static str)
        ensures
            r@ == self.spec_label(),
    {
        match self {
            AddrClass::ZeroReserved => "Address with 0.x (reserved)",
            AddrClass::ClassA => "Class A",
            AddrClass::Loopback => "Loopback",
            AddrClass::ClassB => "Class B",
            AddrClass::ClassC => "Class C",
            AddrClass::ClassD => "Class D (multicast)",
            AddrClass::ClassE => "Class E (reserved)",
        }
    }
}

/// The classification line: the class label, annotated when the
/// address is private.
pub open spec fn classification_text(class: AddrClass, is_private: bool) -> Seq<char> {
    if is_private {
        class.spec_label() + ", Private Internet"@
    } else {
        class.spec_label()
    }
}

/// Renders the classification line: the class label, with a private
/// network annotation when it applies.
pub fn format_classification(class: AddrClass, is_private: bool) -> (r: String)
    ensures
        r@ == classification_text(class, is_private),
{
    let mut s = String::from_str(class.label());
    if is_private {
        s.append(", Private Internet");
    }
    s
}

/// The class of the address and whether it is a private (RFC 1918)
/// address.
pub fn detect_class_and_priv(octets: [u8; 4]) -> (r: (AddrClass, bool))
    ensures
        r.0 == spec_class(octets[0]),
        r.1 == spec_is_private(octets),
{
    let o1 = octets[0];
    let class = if o1 == 0 {
        AddrClass::ZeroReserved
    } else if o1 <= 126 {
        AddrClass::ClassA
    } else if o1 == 127 {
        AddrClass::Loopback
    } else if o1 <= 191 {
        AddrClass::ClassB
    } else if o1 <= 223 {
        AddrClass::ClassC
    } else if o1 <= 239 {
        AddrClass::ClassD
    } else {
        AddrClass::ClassE
    };
    let is_private = octets[0] == 10 || (octets[0] == 172 && 16 <= octets[1] && octets[1] <= 31)
        || (octets[0] == 192 && octets[1] == 168);
    (class, is_private)
}

} // verus!
