//! Lower-case hexadecimal rendering of byte strings, GUIDs and vendor ids.

use vstd::prelude::*;

verus! {

/// The sixteen lower-case hexadecimal digits.
pub open spec fn hex_digits() -> Seq<char> {
    seq!['0', '1', '2', '3', '4', '5', '6', '7', '8', '9', 'a', 'b', 'c', 'd', 'e', 'f']
}

/// Digit for the nibble `n` (0..=15).
pub open spec fn hex_char(n: int) -> char {
    hex_digits()[n]
}

/// Two lower-case hex digits of a byte, high nibble first.
pub open spec fn byte_hex(b: u8) -> Seq<char> {
    seq![hex_char(b as int / 16), hex_char(b as int % 16)]
}

/// Hex rendering of a byte string: two digits per byte, in order.
pub open spec fn hex_of(bytes: Seq<u8>) -> Seq<char>
    decreases bytes.len(),
{
    if bytes.len() == 0 {
        Seq::empty()
    } else {
        hex_of(bytes.drop_last()) + byte_hex(bytes.last())
    }
}

/// One hex digit as a string.
fn hex_digit_str(n: u8) -> (r: &'static str)
    requires
        n < 16,
    ensures
        r@ == seq![hex_char(n as int)],
{
    if n == 0 {
        proof { reveal_strlit("0"); }
        "0"
    } else if n == 1 {
        proof { reveal_strlit("1"); }
        "1"
    } else if n == 2 {
        proof { reveal_strlit("2"); }
        "2"
    } else if n == 3 {
        proof { reveal_strlit("3"); }
        "3"
    } else if n == 4 {
        proof { reveal_strlit("4"); }
        "4"
    } else if n == 5 {
        proof { reveal_strlit("5"); }
        "5"
    } else if n == 6 {
        proof { reveal_strlit("6"); }
        "6"
    } else if n == 7 {
        proof { reveal_strlit("7"); }
        "7"
    } else if n == 8 {
        proof { reveal_strlit("8"); }
        "8"
    } else if n == 9 {
        proof { reveal_strlit("9"); }
        "9"
    } else if n == 10 {
        proof { reveal_strlit("a"); }
        "a"
    } else if n == 11 {
        proof { reveal_strlit("b"); }
        "b"
    } else if n == 12 {
        proof { reveal_strlit("c"); }
        "c"
    } else if n == 13 {
        proof { reveal_strlit("d"); }
        "d"
    } else if n == 14 {
        proof { reveal_strlit("e"); }
        "e"
    } else {
        proof { reveal_strlit("f"); }
        "f"
    }
}

/// Lower-case hex of `bytes`, two digits per byte.
pub fn hex_str(bytes: &[u8]) -> (r: String)
    ensures
        r@ == hex_of(bytes@),
        r@.len() == 2 * bytes@.len(),
{
    let mut s = String::new();
    let mut i: usize = 0;
    while i < bytes.len()
        invariant
            i <= bytes@.len(),
            s@ == hex_of(bytes@.take(i as int)),
            s@.len() == 2 * i,
        decreases bytes@.len() - i,
    {
        let b = bytes[i];
        s.append(hex_digit_str(b / 16));
        s.append(hex_digit_str(b % 16));
        proof {
            assert(bytes@.take(i + 1).drop_last() =~= bytes@.take(i as int));
            assert(s@ =~= hex_of(bytes@.take(i as int)) + byte_hex(b));
        }
        i = i + 1;
    }
    proof {
        assert(bytes@.take(bytes@.len() as int) =~= bytes@);
    }
    s
}

/// `prefix.entity` with both parts in lower-case hex: the printed form of
/// a GUID (12-byte prefix, 4-byte entity id).
pub open spec fn guid_text(prefix: Seq<u8>, entity: Seq<u8>) -> Seq<char> {
    hex_of(prefix) + seq!['.'] + hex_of(entity)
}

pub fn guid_string(prefix: &[u8], entity: &[u8]) -> (r: String)
    ensures
        r@ == guid_text(prefix@, entity@),
{
    let mut s = hex_str(prefix);
    proof { reveal_strlit("."); }
    s.append(".");
    let e = hex_str(entity);
    s.append(e.as_str());
    s
}


/// Product name registered for a 2-byte RTPS vendor id, or `0x` and the
/// id in hex for an id missing from the table.
pub open spec fn vendor_name(b0: u8, b1: u8) -> Seq<char> {
    if b0 == 0x00 && b1 == 0x00 {
        "unknown"@
    } else if b0 == 0x01 && b1 == 0x01 {
        "RTI Connext"@
    } else if b0 == 0x01 && b1 == 0x02 {
        "OpenSplice"@
    } else if b0 == 0x01 && b1 == 0x03 {
        "OpenDDS"@
    } else if b0 == 0x01 && b1 == 0x04 {
        "Mil-DDS"@
    } else if b0 == 0x01 && b1 == 0x05 {
        "InterCOM"@
    } else if b0 == 0x01 && b1 == 0x06 {
        "CoreDX"@
    } else if b0 == 0x01 && b1 == 0x09 {
        "Diamond DDS"@
    } else if b0 == 0x01 && b1 == 0x0A {
        "RTI Connext Micro"@
    } else if b0 == 0x01 && b1 == 0x0B {
        "Vortex Cafe"@
    } else if b0 == 0x01 && b1 == 0x0D {
        "Vortex Lite"@
    } else if b0 == 0x01 && b1 == 0x0F {
        "FastDDS"@
    } else if b0 == 0x01 && b1 == 0x10 {
        "Cyclone DDS"@
    } else if b0 == 0x01 && b1 == 0x11 {
        "GurumDDS"@
    } else if b0 == 0x01 && b1 == 0x12 {
        "RustDDS"@
    } else if b0 == 0x01 && b1 == 0x13 {
        "ZRDDS"@
    } else if b0 == 0x01 && b1 == 0x14 {
        "Dust DDS"@
    } else {
        "0x"@ + byte_hex(b0) + byte_hex(b1)
    }
}

/// Clean product name of an RTPS vendor id.
pub fn pretty_vendor(bytes: [u8; 2]) -> (r: String)
    ensures
        r@ == vendor_name(bytes@[0], bytes@[1]),
{
    let b0 = bytes[0];
    let b1 = bytes[1];
    if b0 == 0x00 && b1 == 0x00 {
        String::from_str("unknown")
    } else if b0 == 0x01 && b1 == 0x01 {
        String::from_str("RTI Connext")
    } else if b0 == 0x01 && b1 == 0x02 {
        String::from_str("OpenSplice")
    } else if b0 == 0x01 && b1 == 0x03 {
        String::from_str("OpenDDS")
    } else if b0 == 0x01 && b1 == 0x04 {
        String::from_str("Mil-DDS")
    } else if b0 == 0x01 && b1 == 0x05 {
        String::from_str("InterCOM")
    } else if b0 == 0x01 && b1 == 0x06 {
        String::from_str("CoreDX")
    } else if b0 == 0x01 && b1 == 0x09 {
        String::from_str("Diamond DDS")
    } else if b0 == 0x01 && b1 == 0x0A {
        String::from_str("RTI Connext Micro")
    } else if b0 == 0x01 && b1 == 0x0B {
        String::from_str("Vortex Cafe")
    } else if b0 == 0x01 && b1 == 0x0D {
        String::from_str("Vortex Lite")
    } else if b0 == 0x01 && b1 == 0x0F {
        String::from_str("FastDDS")
    } else if b0 == 0x01 && b1 == 0x10 {
        String::from_str("Cyclone DDS")
    } else if b0 == 0x01 && b1 == 0x11 {
        String::from_str("GurumDDS")
    } else if b0 == 0x01 && b1 == 0x12 {
        String::from_str("RustDDS")
    } else if b0 == 0x01 && b1 == 0x13 {
        String::from_str("ZRDDS")
    } else if b0 == 0x01 && b1 == 0x14 {
        String::from_str("Dust DDS")
    } else {
        let mut s = String::from_str("0x");
        let h = hex_str(&bytes);
        proof {
            assert(bytes@.drop_last() =~= seq![b0]);
            assert(seq![b0].drop_last() =~= Seq::<u8>::empty());
            assert(hex_of(seq![b0]) =~= byte_hex(b0));
            assert(hex_of(bytes@) =~= byte_hex(b0) + byte_hex(b1));
        }
        s.append(h.as_str());
        s
    }
}

/// The registered names of the vendor-id table.
pub proof fn law_vendor_registry()
    ensures
        vendor_name(0x00, 0x00) == "unknown"@,
        vendor_name(0x01, 0x01) == "RTI Connext"@,
        vendor_name(0x01, 0x02) == "OpenSplice"@,
        vendor_name(0x01, 0x03) == "OpenDDS"@,
        vendor_name(0x01, 0x04) == "Mil-DDS"@,
        vendor_name(0x01, 0x05) == "InterCOM"@,
        vendor_name(0x01, 0x06) == "CoreDX"@,
        vendor_name(0x01, 0x09) == "Diamond DDS"@,
        vendor_name(0x01, 0x0A) == "RTI Connext Micro"@,
        vendor_name(0x01, 0x0B) == "Vortex Cafe"@,
        vendor_name(0x01, 0x0D) == "Vortex Lite"@,
        vendor_name(0x01, 0x0F) == "FastDDS"@,
        vendor_name(0x01, 0x10) == "Cyclone DDS"@,
        vendor_name(0x01, 0x11) == "GurumDDS"@,
        vendor_name(0x01, 0x12) == "RustDDS"@,
        vendor_name(0x01, 0x13) == "ZRDDS"@,
        vendor_name(0x01, 0x14) == "Dust DDS"@,
{
}

/// Value of a lower-case hex digit.
spec fn hex_val(c: char) -> int {
    if '0' <= c && c <= '9' {
        c as int - 48
    } else {
        c as int - 87
    }
}

proof fn lemma_hex_val(n: int)
    requires
        0 <= n < 16,
    ensures
        hex_val(hex_char(n)) == n,
{
    assert(hex_digits()[0] == '0');
    assert(hex_digits()[n] == hex_char(n));
}

/// The vendor id a name stands for, told by its length and a few of its
/// characters.
spec fn vendor_id_of(n: Seq<char>) -> (u8, u8) {
    if n.len() == 6 && n[0] == '0' {
        (
            (hex_val(n[2]) * 16 + hex_val(n[3])) as u8,
            (hex_val(n[4]) * 16 + hex_val(n[5])) as u8,
        )
    } else if n[0] == 'u' {
        (0x00, 0x00)
    } else if n[0] == 'R' && n.len() == 11 {
        (0x01, 0x01)
    } else if n[0] == 'R' && n.len() == 17 {
        (0x01, 0x0A)
    } else if n[0] == 'R' {
        (0x01, 0x12)
    } else if n[0] == 'O' && n.len() == 10 {
        (0x01, 0x02)
    } else if n[0] == 'O' {
        (0x01, 0x03)
    } else if n[0] == 'M' {
        (0x01, 0x04)
    } else if n[0] == 'I' {
        (0x01, 0x05)
    } else if n[0] == 'C' && n.len() == 6 {
        (0x01, 0x06)
    } else if n[0] == 'C' {
        (0x01, 0x10)
    } else if n[0] == 'D' && n.len() == 11 {
        (0x01, 0x09)
    } else if n[0] == 'D' {
        (0x01, 0x14)
    } else if n[0] == 'V' && n[7] == 'C' {
        (0x01, 0x0B)
    } else if n[0] == 'V' {
        (0x01, 0x0D)
    } else if n[0] == 'F' {
        (0x01, 0x0F)
    } else if n[0] == 'G' {
        (0x01, 0x11)
    } else {
        (0x01, 0x13)
    }
}

/// Every name gives back its vendor id.
#[verifier::rlimit(100)]
#[verifier::spinoff_prover]
proof fn lemma_vendor_id_of(b0: u8, b1: u8)
    ensures
        vendor_id_of(vendor_name(b0, b1)) == (b0, b1),
{

    reveal_strlit("unknown");
    reveal_strlit("RTI Connext");
    reveal_strlit("OpenSplice");
    reveal_strlit("OpenDDS");
    reveal_strlit("Mil-DDS");
    reveal_strlit("InterCOM");
    reveal_strlit("CoreDX");
    reveal_strlit("Diamond DDS");
    reveal_strlit("RTI Connext Micro");
    reveal_strlit("Vortex Cafe");
    reveal_strlit("Vortex Lite");
    reveal_strlit("FastDDS");
    reveal_strlit("Cyclone DDS");
    reveal_strlit("GurumDDS");
    reveal_strlit("RustDDS");
    reveal_strlit("ZRDDS");
    reveal_strlit("Dust DDS");
    reveal_strlit("0x");
    let n = vendor_name(b0, b1);
    if b0 == 0 && b1 == 0 {
        assert(n == "unknown"@);
        assert(vendor_id_of(n) == (0u8, 0u8));
    } else if b0 == 1 && b1 == 1 {
        assert(n == "RTI Connext"@);
        assert(vendor_id_of(n) == (1u8, 1u8));
    } else if b0 == 1 && b1 == 2 {
        assert(n == "OpenSplice"@);
        assert(vendor_id_of(n) == (1u8, 2u8));
    } else if b0 == 1 && b1 == 3 {
        assert(n == "OpenDDS"@);
        assert(vendor_id_of(n) == (1u8, 3u8));
    } else if b0 == 1 && b1 == 4 {
        assert(n == "Mil-DDS"@);
        assert(vendor_id_of(n) == (1u8, 4u8));
    } else if b0 == 1 && b1 == 5 {
        assert(n == "InterCOM"@);
        assert(vendor_id_of(n) == (1u8, 5u8));
    } else if b0 == 1 && b1 == 6 {
        assert(n == "CoreDX"@);
        assert(vendor_id_of(n) == (1u8, 6u8));
    } else if b0 == 1 && b1 == 9 {
        assert(n == "Diamond DDS"@);
        assert(vendor_id_of(n) == (1u8, 9u8));
    } else if b0 == 1 && b1 == 10 {
        assert(n == "RTI Connext Micro"@);
        assert(vendor_id_of(n) == (1u8, 10u8));
    } else if b0 == 1 && b1 == 11 {
        assert(n == "Vortex Cafe"@);
        assert(vendor_id_of(n) == (1u8, 11u8));
    } else if b0 == 1 && b1 == 13 {
        assert(n == "Vortex Lite"@);
        assert(vendor_id_of(n) == (1u8, 13u8));
    } else if b0 == 1 && b1 == 15 {
        assert(n == "FastDDS"@);
        assert(vendor_id_of(n) == (1u8, 15u8));
    } else if b0 == 1 && b1 == 16 {
        assert(n == "Cyclone DDS"@);
        assert(vendor_id_of(n) == (1u8, 16u8));
    } else if b0 == 1 && b1 == 17 {
        assert(n == "GurumDDS"@);
        assert(vendor_id_of(n) == (1u8, 17u8));
    } else if b0 == 1 && b1 == 18 {
        assert(n == "RustDDS"@);
        assert(vendor_id_of(n) == (1u8, 18u8));
    } else if b0 == 1 && b1 == 19 {
        assert(n == "ZRDDS"@);
        assert(vendor_id_of(n) == (1u8, 19u8));
    } else if b0 == 1 && b1 == 20 {
        assert(n == "Dust DDS"@);
        assert(vendor_id_of(n) == (1u8, 20u8));
    } else {
        assert(n == "0x"@ + byte_hex(b0) + byte_hex(b1));
        assert(n.len() == 6 && n[0] == '0');
        assert(n[2] == hex_char(b0 as int / 16));
        assert(n[3] == hex_char(b0 as int % 16));
        assert(n[4] == hex_char(b1 as int / 16));
        assert(n[5] == hex_char(b1 as int % 16));
        lemma_hex_val(b0 as int / 16);
        lemma_hex_val(b0 as int % 16);
        lemma_hex_val(b1 as int / 16);
        lemma_hex_val(b1 as int % 16);
    }
}

/// Distinct vendor ids get distinct names: no two registered products
/// share a name, and an id missing from the table is shown as `0x` and its
/// four hex digits, which tell the id back.
pub proof fn law_vendor_names_distinct(a0: u8, a1: u8, b0: u8, b1: u8)
    requires
        vendor_name(a0, a1) == vendor_name(b0, b1),
    ensures
        a0 == b0 && a1 == b1,
{
    lemma_vendor_id_of(a0, a1);
    lemma_vendor_id_of(b0, b1);
}

/// The hex rendering holds two digits per byte, in byte order: the digits
/// at `2k` and `2k + 1` are the high and the low nibble of byte `k`.
pub proof fn law_hex_layout(bytes: Seq<u8>)
    ensures
        hex_of(bytes).len() == 2 * bytes.len(),
        forall|k: int|
            #![trigger bytes[k]]
            0 <= k < bytes.len() ==> hex_of(bytes)[2 * k] == hex_digits()[bytes[k] as int / 16]
                && hex_of(bytes)[2 * k + 1] == hex_digits()[bytes[k] as int % 16],
    decreases bytes.len(),
{
    if bytes.len() > 0 {
        let d = bytes.drop_last();
        law_hex_layout(d);
        let h = hex_of(bytes);
        assert(h == hex_of(d) + byte_hex(bytes.last()));
        assert forall|k: int|
            #![trigger bytes[k]]
            0 <= k < bytes.len() implies h[2 * k] == hex_digits()[bytes[k] as int / 16] && h[2 * k + 1]
                == hex_digits()[bytes[k] as int % 16] by {
            if k < d.len() {
                assert(bytes[k] == d[k]);
            }
        }
    }
}

proof fn lemma_hex_digits_distinct(i: int, j: int)
    requires
        0 <= i < 16,
        0 <= j < 16,
        hex_digits()[i] == hex_digits()[j],
    ensures
        i == j,
{
    let h = hex_digits();
    assert(h[0] == '0' && h[1] == '1' && h[2] == '2' && h[3] == '3' && h[4] == '4' && h[5] == '5'
        && h[6] == '6' && h[7] == '7' && h[8] == '8' && h[9] == '9' && h[10] == 'a' && h[11] == 'b'
        && h[12] == 'c' && h[13] == 'd' && h[14] == 'e' && h[15] == 'f');
}

/// Two byte strings with the same hex rendering are the same: the
/// rendering loses nothing.
pub proof fn law_hex_injective(a: Seq<u8>, b: Seq<u8>)
    requires
        hex_of(a) == hex_of(b),
    ensures
        a == b,
{
    law_hex_layout(a);
    law_hex_layout(b);
    assert(a.len() == b.len());
    assert forall|k: int| 0 <= k < a.len() implies a[k] == b[k] by {
        assert(hex_of(a)[2 * k] == hex_digits()[a[k] as int / 16]);
        assert(hex_of(b)[2 * k] == hex_digits()[b[k] as int / 16]);
        assert(hex_of(a)[2 * k + 1] == hex_digits()[a[k] as int % 16]);
        assert(hex_of(b)[2 * k + 1] == hex_digits()[b[k] as int % 16]);
        lemma_hex_digits_distinct(a[k] as int / 16, b[k] as int / 16);
        lemma_hex_digits_distinct(a[k] as int % 16, b[k] as int % 16);
        assert(a[k] == 16 * (a[k] as int / 16) + a[k] as int % 16);
        assert(b[k] == 16 * (b[k] as int / 16) + b[k] as int % 16);
    }
    assert(a =~= b);
}

} // verus!
