use vstd::prelude::*;
use vstd::string::StringExecFns;

verus! {

/// The character a single bit is rendered as.
pub open spec fn bin_char(b: bool) -> char {
    if b {
        '1'
    } else {
        '0'
    }
}

/// The eight binary digits of an octet, most significant bit first.
pub open spec fn octet_bin(o: u8) -> Seq<char> {
    Seq::new(8, |i: int| bin_char(((o as u32) >> ((7 - i) as u32)) & 1 == 1))
}

/// An octet's binary digits with a space inserted after the first `off`
/// bits, marking the network/host boundary inside the octet.
pub open spec fn octet_bin_split(o: u8, off: int) -> Seq<char> {
    octet_bin(o).subrange(0, off) + seq![' '] + octet_bin(o).subrange(off, 8)
}

/// The rendering of the octet at index `idx`: split at the prefix
/// boundary when that boundary falls inside this octet, unsplit
/// otherwise.
pub open spec fn octet_group(o: u8, idx: int, prefix: u8) -> Seq<char> {
    if idx == prefix as int / 8 && prefix as int % 8 != 0 {
        octet_bin_split(o, prefix as int % 8)
    } else {
        octet_bin(o)
    }
}

/// Four space-separated eight-bit groups, with no split anywhere.
pub open spec fn to_binary_text(o: [u8; 4]) -> Seq<char> {
    octet_bin(o[0]) + seq![' '] + octet_bin(o[1]) + seq![' '] + octet_bin(o[2]) + seq![' ']
        + octet_bin(o[3])
}

/// The octet of `x` at index `i` (0 is the most significant).
pub open spec fn oct(x: u32, i: int) -> u8 {
    ((x >> (((3 - i) * 8) as u32)) & 0xFF) as u8
}

/// The binary rendering of `x` as four space-separated octet groups,
/// where the octet containing the prefix boundary (if the boundary does
/// not fall between octets) is split in two at that boundary.
pub open spec fn split_binary_text(x: u32, prefix: u8) -> Seq<char> {
    octet_group(oct(x, 0), 0, prefix) + seq![' '] + octet_group(oct(x, 1), 1, prefix) + seq![' ']
        + octet_group(oct(x, 2), 2, prefix) + seq![' '] + octet_group(oct(x, 3), 3, prefix)
}

/// The character for a single decimal digit value.
pub open spec fn digit_char(d: int) -> char {
    if d == 0 {
        '0'
    } else if d == 1 {
        '1'
    } else if d == 2 {
        '2'
    } else if d == 3 {
        '3'
    } else if d == 4 {
        '4'
    } else if d == 5 {
        '5'
    } else if d == 6 {
        '6'
    } else if d == 7 {
        '7'
    } else if d == 8 {
        '8'
    } else {
        '9'
    }
}

/// The decimal digits of a value in [0, 255], without leading zeros.
pub open spec fn dec_chars(v: int) -> Seq<char> {
    if v < 10 {
        seq![digit_char(v)]
    } else if v < 100 {
        seq![digit_char(v / 10), digit_char(v % 10)]
    } else {
        seq![digit_char(v / 100), digit_char((v / 10) % 10), digit_char(v % 10)]
    }
}

/// The usual dotted-decimal rendering of four octets.
pub open spec fn dotted_text(o: [u8; 4]) -> Seq<char> {
    dec_chars(o[0] as int) + seq!['.'] + dec_chars(o[1] as int) + seq!['.'] + dec_chars(
        o[2] as int,
    ) + seq!['.'] + dec_chars(o[3] as int)
}

/// The decimal digits of an octet value render to the same bytes the
/// parser's canonical octet text is made of.
proof fn lemma_dec_chars_bytes(v: int)
    requires
        0 <= v <= 255,
    ensures
        dec_chars(v).map_values(|c: char| c as u8) =~= crate::parse::dec_bytes(v),
{
    assert forall|d: int| 0 <= d <= 9 implies digit_char(d) as u8 == crate::parse::digit_byte(
        d,
    ) by {
        assert('0' as u8 == 48 && '1' as u8 == 49 && '2' as u8 == 50 && '3' as u8 == 51 && '4'
            as u8 == 52 && '5' as u8 == 53 && '6' as u8 == 54 && '7' as u8 == 55 && '8' as u8 == 56
            && '9' as u8 == 57);
    }
}

/// Printing four octets in dotted-decimal notation and reading the
/// result back are inverse: the rendering, taken as bytes, is exactly
/// the parser's canonical address text of these four octets, which the
/// parser accepts.
pub proof fn lemma_dotted_text_parses_back(o: [u8; 4])
    ensures
        dotted_text(o).map_values(|c: char| c as u8) == crate::parse::addr_text(o),
{
    lemma_dec_chars_bytes(o[0] as int);
    lemma_dec_chars_bytes(o[1] as int);
    lemma_dec_chars_bytes(o[2] as int);
    lemma_dec_chars_bytes(o[3] as int);
    assert('.' as u8 == 46);
    assert(dotted_text(o).map_values(|c: char| c as u8) =~= crate::parse::addr_text(o));
}

/// Appends a single space.
fn push_space(s: &mut String)
    ensures
        final(s)@ == old(s)@ + seq![' '],
{
    proof {
        reveal_strlit(" ");
        assert(" "@ =~= seq![' ']);
    }
    s.append(" ");
}

/// Appends the binary digits of `o` from bit position `from` up to
/// (excluding) bit position `to`, most significant bit first.
fn push_bits_range(s: &mut String, o: u8, from: usize, to: usize)
    requires
        from <= to <= 8,
    ensures
        final(s)@ == old(s)@ + octet_bin(o).subrange(from as int, to as int),
{
    let mut i: usize = from;
    proof {
        assert(s@ =~= old(s)@ + octet_bin(o).subrange(from as int, from as int));
    }
    while i < to
        invariant
            from <= i <= to <= 8,
            s@ == old(s)@ + octet_bin(o).subrange(from as int, i as int),
        decreases to - i,
    {
        let shift: u32 = (7 - i) as u32;
        let b: u32 = ((o as u32) >> shift) & 1;
        if b == 1 {
            s.append("1");
        } else {
            s.append("0");
        }
        proof {
            reveal_strlit("1");
            reveal_strlit("0");
            assert("1"@ =~= seq!['1']);
            assert("0"@ =~= seq!['0']);
            assert(octet_bin(o)[i as int] == bin_char(((o as u32) >> ((7 - i as int) as u32)) & 1
                == 1));
            assert(s@ =~= old(s)@ + octet_bin(o).subrange(from as int, i as int + 1));
        }
        i += 1;
    }
}

/// Appends one rendered octet group: the eight bits, split after `off`
/// bits when `split` is set.
fn push_group(s: &mut String, o: u8, split: bool, off: usize)
    requires
        split ==> 1 <= off < 8,
    ensures
        final(s)@ == old(s)@ + (if split {
            octet_bin_split(o, off as int)
        } else {
            octet_bin(o)
        }),
{
    if split {
        push_bits_range(s, o, 0, off);
        push_space(s);
        push_bits_range(s, o, off, 8);
        proof {
            assert(s@ =~= old(s)@ + octet_bin_split(o, off as int));
        }
    } else {
        push_bits_range(s, o, 0, 8);
        proof {
            assert(octet_bin(o).subrange(0, 8) =~= octet_bin(o));
        }
    }
}

/// Appends the character of one decimal digit.
fn push_digit(s: &mut String, d: u8)
    requires
        d <= 9,
    ensures
        final(s)@ == old(s)@ + seq![digit_char(d as int)],
{
    proof {
        reveal_strlit("0");
        reveal_strlit("1");
        reveal_strlit("2");
        reveal_strlit("3");
        reveal_strlit("4");
        reveal_strlit("5");
        reveal_strlit("6");
        reveal_strlit("7");
        reveal_strlit("8");
        reveal_strlit("9");
    }
    match d {
        0 => s.append("0"),
        1 => s.append("1"),
        2 => s.append("2"),
        3 => s.append("3"),
        4 => s.append("4"),
        5 => s.append("5"),
        6 => s.append("6"),
        7 => s.append("7"),
        8 => s.append("8"),
        _ => s.append("9"),
    }
    proof {
        assert(s@ =~= old(s)@ + seq![digit_char(d as int)]);
    }
}

/// Appends the decimal digits of one octet, without leading zeros.
fn push_octet_dec(s: &mut String, o: u8)
    ensures
        final(s)@ == old(s)@ + dec_chars(o as int),
{
    if o >= 100 {
        push_digit(s, o / 100);
        push_digit(s, (o / 10) % 10);
        push_digit(s, o % 10);
    } else if o >= 10 {
        push_digit(s, o / 10);
        push_digit(s, o % 10);
    } else {
        push_digit(s, o);
    }
    proof {
        assert(s@ =~= old(s)@ + dec_chars(o as int));
    }
}

/// Appends a single dot.
fn push_dot(s: &mut String)
    ensures
        final(s)@ == old(s)@ + seq!['.'],
{
    proof {
        reveal_strlit(".");
        assert("."@ =~= seq!['.']);
    }
    s.append(".");
}

/// Renders four octets in dotted-decimal notation.
pub fn format_ipv4(octets: [u8; 4]) -> (r: String)
    ensures
        r@ == dotted_text(octets),
{
    let mut s = String::new();
    push_octet_dec(&mut s, octets[0]);
    push_dot(&mut s);
    push_octet_dec(&mut s, octets[1]);
    push_dot(&mut s);
    push_octet_dec(&mut s, octets[2]);
    push_dot(&mut s);
    push_octet_dec(&mut s, octets[3]);
    proof {
        assert(s@ =~= dotted_text(octets));
    }
    s
}

/// Renders four octets as four space-separated eight-bit binary groups.
pub fn to_binary(octets: [u8; 4]) -> (r: String)
    ensures
        r@ == to_binary_text(octets),
{
    let mut s = String::new();
    push_group(&mut s, octets[0], false, 0);
    push_space(&mut s);
    push_group(&mut s, octets[1], false, 0);
    push_space(&mut s);
    push_group(&mut s, octets[2], false, 0);
    push_space(&mut s);
    push_group(&mut s, octets[3], false, 0);
    proof {
        assert(s@ =~= to_binary_text(octets));
    }
    s
}

/// Renders `x` in binary with the prefix boundary marked: the octet the
/// boundary falls inside is split into two space-separated groups at the
/// boundary bit.
pub fn binary_octets_with_split(x: u32, prefix: u8) -> (r: String)
    requires
        prefix <= 32,
    ensures
        r@ == split_binary_text(x, prefix),
{
    let a: u8 = (x >> 24) as u8;
    let b: u8 = ((x >> 16) & 0xFF) as u8;
    let c: u8 = ((x >> 8) & 0xFF) as u8;
    let d: u8 = (x & 0xFF) as u8;
    proof {
        assert(a == ((x >> 24) & 0xFF) as u8 && b == ((x >> 16) & 0xFF) as u8 && c == ((x >> 8)
            & 0xFF) as u8 && d == ((x >> 0) & 0xFF) as u8) by (bit_vector)
            requires
                a == (x >> 24) as u8,
                b == ((x >> 16) & 0xFF) as u8,
                c == ((x >> 8) & 0xFF) as u8,
                d == (x & 0xFF) as u8,
        ;
        assert(oct(x, 0) == a && oct(x, 1) == b && oct(x, 2) == c && oct(x, 3) == d);
    }
    let split_idx: usize = (prefix / 8) as usize;
    let off: usize = (prefix % 8) as usize;
    let mut s = String::new();
    push_group(&mut s, a, split_idx == 0 && off != 0, off);
    push_space(&mut s);
    push_group(&mut s, b, split_idx == 1 && off != 0, off);
    push_space(&mut s);
    push_group(&mut s, c, split_idx == 2 && off != 0, off);
    push_space(&mut s);
    push_group(&mut s, d, split_idx == 3 && off != 0, off);
    proof {
        assert(s@ =~= split_binary_text(x, prefix));
    }
    s
}

} // verus!
