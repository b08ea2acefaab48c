use vstd::prelude::*;
use vstd::arithmetic::div_mod::lemma_fundamental_div_mod_converse;

verus! {

/// Why an input was rejected: it does not split into exactly two
/// slash-separated parts, the address part is not four dotted octets,
/// or the prefix part is not an integer in [0, 32].
#[derive(Clone, Copy, PartialEq, Eq, Structural, Debug)]
pub enum ParseError {
    InvalidFormat,
    InvalidAddress,
    InvalidPrefix,
}

/// ASCII decimal digit.
pub open spec fn is_digit_byte(b: u8) -> bool {
    48 <= b && b <= 57
}

/// Every byte of `s` is a decimal digit.
pub open spec fn all_digits(s: Seq<u8>) -> bool {
    forall|i: int| 0 <= i < s.len() ==> is_digit_byte(s[i])
}

/// The numeric value of a digit string, read most significant digit
/// first. Meaningful only when `all_digits(s)` holds.
pub open spec fn dec_value(s: Seq<u8>) -> int
    decreases s.len(),
{
    if s.len() == 0 {
        0
    } else {
        dec_value(s.drop_last()) * 10 + (s.last() - 48)
    }
}

/// A well-formed octet: one to three digits, no leading zero, value at
/// most 255.
pub open spec fn valid_octet_text(s: Seq<u8>) -> bool {
    1 <= s.len() <= 3 && all_digits(s) && (s.len() > 1 ==> s[0] != 48) && dec_value(s) <= 255
}

/// A well-formed run of `n` dot-separated octets.
pub open spec fn valid_octets_text(s: Seq<u8>, n: nat) -> bool
    decreases n,
{
    if n <= 1 {
        valid_octet_text(s)
    } else {
        exists|i: int|
            #![auto]
            0 <= i < s.len() && s[i] == 46 && valid_octet_text(s.subrange(0, i))
                && valid_octets_text(s.subrange(i + 1, s.len() as int), (n - 1) as nat)
    }
}

/// The ASCII byte of a single decimal digit value.
pub open spec fn digit_byte(d: int) -> u8 {
    (48 + d) as u8
}

/// The canonical (leading-zero free) decimal digits of a value in
/// [0, 255].
pub open spec fn dec_bytes(v: int) -> Seq<u8> {
    if v < 10 {
        seq![digit_byte(v)]
    } else if v < 100 {
        seq![digit_byte(v / 10), digit_byte(v % 10)]
    } else {
        seq![digit_byte(v / 100), digit_byte((v / 10) % 10), digit_byte(v % 10)]
    }
}

/// The canonical dotted-decimal text of four octets.
pub open spec fn addr_text(o: [u8; 4]) -> Seq<u8> {
    dec_bytes(o[0] as int) + seq![46u8] + dec_bytes(o[1] as int) + seq![46u8] + dec_bytes(
        o[2] as int,
    ) + seq![46u8] + dec_bytes(o[3] as int)
}

/// The prefix text with an optional leading plus sign stripped.
pub open spec fn prefix_body(s: Seq<u8>) -> Seq<u8> {
    if s.len() >= 1 && s[0] == 43 {
        s.subrange(1, s.len() as int)
    } else {
        s
    }
}

/// A well-formed prefix: an optional plus sign, then at least one
/// digit, with value at most 32. Leading zeros are allowed, as they are
/// when parsing an unsigned integer.
pub open spec fn valid_prefix_text(s: Seq<u8>) -> bool {
    prefix_body(s).len() >= 1 && all_digits(prefix_body(s)) && dec_value(prefix_body(s)) <= 32
}

/// The numeric value of a well-formed prefix text.
pub open spec fn prefix_value(s: Seq<u8>) -> int {
    dec_value(prefix_body(s))
}

/// Position `i` holds the only slash of `s`.
pub open spec fn is_the_slash(s: Seq<u8>, i: int) -> bool {
    0 <= i < s.len() && s[i] == 47 && forall|j: int| 0 <= j < s.len() && j != i ==> s[j] != 47
}

/// `s` contains exactly one slash.
pub open spec fn exactly_one_slash(s: Seq<u8>) -> bool {
    exists|i: int| is_the_slash(s, i)
}

/// The position of the only slash of `s` (meaningful when
/// `exactly_one_slash(s)` holds).
pub open spec fn the_slash(s: Seq<u8>) -> int {
    choose|i: int| is_the_slash(s, i)
}

/// What stands before the only slash.
pub open spec fn addr_part(s: Seq<u8>) -> Seq<u8> {
    s.subrange(0, the_slash(s))
}

/// What stands after the only slash.
pub open spec fn prefix_part(s: Seq<u8>) -> Seq<u8> {
    s.subrange(the_slash(s) + 1, s.len() as int)
}

proof fn lemma_dec_value1(s: Seq<u8>)
    requires
        s.len() == 1,
    ensures
        dec_value(s) == s[0] - 48,
{
    assert(s.drop_last() =~= Seq::<u8>::empty());
    assert(dec_value(Seq::<u8>::empty()) == 0);
}

proof fn lemma_dec_value2(s: Seq<u8>)
    requires
        s.len() == 2,
    ensures
        dec_value(s) == (s[0] - 48) * 10 + (s[1] - 48),
{
    assert(s.drop_last() =~= seq![s[0]]);
    lemma_dec_value1(seq![s[0]]);
}

proof fn lemma_dec_value3(s: Seq<u8>)
    requires
        s.len() == 3,
    ensures
        dec_value(s) == (s[0] - 48) * 100 + (s[1] - 48) * 10 + (s[2] - 48),
{
    assert(s.drop_last() =~= seq![s[0], s[1]]);
    lemma_dec_value2(seq![s[0], s[1]]);
}

/// A well-formed octet text is the canonical rendering of its value.
proof fn lemma_octet_canonical(s: Seq<u8>)
    requires
        valid_octet_text(s),
    ensures
        s == dec_bytes(dec_value(s)),
{
    let v = dec_value(s);
    if s.len() == 1 {
        lemma_dec_value1(s);
        assert(s =~= dec_bytes(v));
    } else if s.len() == 2 {
        lemma_dec_value2(s);
        let d0 = s[0] - 48;
        let d1 = s[1] - 48;
        lemma_fundamental_div_mod_converse(v, 10, d0, d1);
        assert(s =~= dec_bytes(v));
    } else {
        lemma_dec_value3(s);
        let d0 = s[0] - 48;
        let d1 = s[1] - 48;
        let d2 = s[2] - 48;
        lemma_fundamental_div_mod_converse(v, 100, d0, d1 * 10 + d2);
        lemma_fundamental_div_mod_converse(v / 10, 10, d0, d1);
        assert(v / 10 == d0 * 10 + d1) by {
            lemma_fundamental_div_mod_converse(v, 10, d0 * 10 + d1, d2);
        }
        assert(s =~= dec_bytes(v));
    }
}

/// Digit strings only grow in value as digits are appended.
proof fn lemma_dec_value_nonneg(s: Seq<u8>)
    requires
        all_digits(s),
    ensures
        dec_value(s) >= 0,
    decreases s.len(),
{
    if s.len() > 0 {
        assert(all_digits(s.drop_last()));
        lemma_dec_value_nonneg(s.drop_last());
    }
}

proof fn lemma_dec_value_step(s: Seq<u8>, i: int)
    requires
        0 <= i < s.len(),
    ensures
        dec_value(s.subrange(0, i + 1)) == dec_value(s.subrange(0, i)) * 10 + (s[i] - 48),
{
    assert(s.subrange(0, i + 1).drop_last() =~= s.subrange(0, i));
}

/// The value of a prefix of a digit string is at most the value of the
/// whole string.
proof fn lemma_dec_value_prefix_le(s: Seq<u8>, i: int)
    requires
        all_digits(s),
        0 <= i <= s.len(),
    ensures
        dec_value(s.subrange(0, i)) <= dec_value(s),
    decreases s.len() - i,
{
    if i == s.len() {
        assert(s.subrange(0, i) =~= s);
    } else {
        lemma_dec_value_step(s, i);
        assert(all_digits(s.subrange(0, i)));
        lemma_dec_value_nonneg(s.subrange(0, i));
        lemma_dec_value_prefix_le(s, i + 1);
    }
}

/// A run of two or more octets must contain a dot.
proof fn lemma_no_dot_invalid(s: Seq<u8>, n: nat)
    requires
        n >= 2,
        forall|j: int| 0 <= j < s.len() ==> s[j] != 46,
    ensures
        !valid_octets_text(s, n),
{
    if valid_octets_text(s, n) {
        let i = choose|i: int|
            #![auto]
            0 <= i < s.len() && s[i] == 46 && valid_octet_text(s.subrange(0, i))
                && valid_octets_text(s.subrange(i + 1, s.len() as int), (n - 1) as nat);
        assert(s[i] != 46);
    }
}

/// A run of `n >= 2` octets splits exactly at its first dot: what
/// stands before it must be one octet, what stands after it must be a
/// run of `n - 1`.
proof fn lemma_first_dot_split(s: Seq<u8>, n: nat, r: int)
    requires
        n >= 2,
        0 <= r < s.len(),
        s[r] == 46,
        forall|j: int| 0 <= j < r ==> s[j] != 46,
    ensures
        valid_octets_text(s, n) <==> (valid_octet_text(s.subrange(0, r)) && valid_octets_text(
            s.subrange(r + 1, s.len() as int),
            (n - 1) as nat,
        )),
{
    if valid_octets_text(s, n) {
        let i = choose|i: int|
            #![auto]
            0 <= i < s.len() && s[i] == 46 && valid_octet_text(s.subrange(0, i))
                && valid_octets_text(s.subrange(i + 1, s.len() as int), (n - 1) as nat);
        // the part before the witness is all digits, so no dot stands before it
        assert forall|j: int| 0 <= j < i implies s[j] != 46 by {
            assert(is_digit_byte(s.subrange(0, i)[j]));
            assert(s.subrange(0, i)[j] == s[j]);
        }
        assert(i == r);
    }
    if valid_octet_text(s.subrange(0, r)) && valid_octets_text(
        s.subrange(r + 1, s.len() as int),
        (n - 1) as nat,
    ) {
        assert(valid_octets_text(s, n));
    }
}

/// A sequence made of four canonical octet texts with dots at the three
/// given positions is the canonical text of those four octets.
#[verifier::rlimit(100)]
proof fn lemma_addr_text_parts(s: Seq<u8>, o: [u8; 4], i1: int, i2: int, i3: int)
    requires
        0 <= i1 < i2 < i3 < s.len(),
        s[i1] == 46,
        s[i2] == 46,
        s[i3] == 46,
        s.subrange(0, i1) == dec_bytes(o[0] as int),
        s.subrange(i1 + 1, i2) == dec_bytes(o[1] as int),
        s.subrange(i2 + 1, i3) == dec_bytes(o[2] as int),
        s.subrange(i3 + 1, s.len() as int) == dec_bytes(o[3] as int),
    ensures
        s =~= addr_text(o),
{
    let p1 = s.subrange(0, i1);
    let p2 = s.subrange(i1 + 1, i2);
    let p3 = s.subrange(i2 + 1, i3);
    let p4 = s.subrange(i3 + 1, s.len() as int);
    assert(s =~= p1 + seq![46u8] + p2 + seq![46u8] + p3 + seq![46u8] + p4);
}

/// The canonical digits of a value in [0, 255] form a well-formed
/// octet text, and reading them back yields the value.
proof fn lemma_dec_bytes_valid(v: int)
    requires
        0 <= v <= 255,
    ensures
        valid_octet_text(dec_bytes(v)),
        dec_value(dec_bytes(v)) == v,
{
    let s = dec_bytes(v);
    if v < 10 {
        lemma_dec_value1(s);
    } else if v < 100 {
        lemma_dec_value2(s);
        assert(v / 10 * 10 + v % 10 == v);
    } else {
        lemma_dec_value3(s);
        assert(v / 10 * 10 + v % 10 == v);
        assert(v / 10 / 10 * 10 + v / 10 % 10 == v / 10);
        assert(v / 10 / 10 == v / 100);
    }
}

/// The parser's address grammar accepts the canonical text of any four
/// octets.
#[verifier::rlimit(100)]
pub proof fn lemma_addr_text_valid(o: [u8; 4])
    ensures
        valid_octets_text(addr_text(o), 4),
{
    lemma_dec_bytes_valid(o[0] as int);
    lemma_dec_bytes_valid(o[1] as int);
    lemma_dec_bytes_valid(o[2] as int);
    lemma_dec_bytes_valid(o[3] as int);
    let p1 = dec_bytes(o[0] as int);
    let p2 = dec_bytes(o[1] as int);
    let p3 = dec_bytes(o[2] as int);
    let p4 = dec_bytes(o[3] as int);
    let s2 = p3 + seq![46u8] + p4;
    let s1 = p2 + seq![46u8] + s2;
    let s0 = addr_text(o);
    assert(valid_octets_text(s2, 2)) by {
        let i = p3.len() as int;
        assert(s2.subrange(0, i) =~= p3);
        assert(s2.subrange(i + 1, s2.len() as int) =~= p4);
        assert(0 <= i < s2.len() && s2[i] == 46 && valid_octet_text(s2.subrange(0, i))
            && valid_octets_text(s2.subrange(i + 1, s2.len() as int), 1));
    }
    assert(valid_octets_text(s1, 3)) by {
        let i = p2.len() as int;
        assert(s1.subrange(0, i) =~= p2);
        assert(s1.subrange(i + 1, s1.len() as int) =~= s2);
        assert(0 <= i < s1.len() && s1[i] == 46 && valid_octet_text(s1.subrange(0, i))
            && valid_octets_text(s1.subrange(i + 1, s1.len() as int), 2));
    }
    assert(valid_octets_text(s0, 4)) by {
        let i = p1.len() as int;
        assert(s0 =~= p1 + seq![46u8] + s1);
        assert(s0.subrange(0, i) =~= p1);
        assert(s0.subrange(i + 1, s0.len() as int) =~= s1);
        assert(0 <= i < s0.len() && s0[i] == 46 && valid_octet_text(s0.subrange(0, i))
            && valid_octets_text(s0.subrange(i + 1, s0.len() as int), 3));
    }
}

/// The canonical digits of a prefix length in [0, 32] form a
/// well-formed prefix text with that value.
pub proof fn lemma_prefix_text_valid(p: u8)
    requires
        p <= 32,
    ensures
        valid_prefix_text(dec_bytes(p as int)),
        prefix_value(dec_bytes(p as int)) == p,
{
    lemma_dec_bytes_valid(p as int);
    assert(prefix_body(dec_bytes(p as int)) == dec_bytes(p as int));
}

/// No byte of a canonical address or prefix text is a slash, so the
/// canonical rendering of any address and prefix splits as expected:
/// the parser accepts it.
pub proof fn lemma_canonical_input_accepted(o: [u8; 4], p: u8)
    requires
        p <= 32,
    ensures
        exactly_one_slash(addr_text(o) + seq![47u8] + dec_bytes(p as int)),
        addr_part(addr_text(o) + seq![47u8] + dec_bytes(p as int)) == addr_text(o),
        prefix_part(addr_text(o) + seq![47u8] + dec_bytes(p as int)) == dec_bytes(p as int),
        valid_octets_text(addr_text(o), 4),
        valid_prefix_text(dec_bytes(p as int)),
{
    lemma_addr_text_valid(o);
    lemma_prefix_text_valid(p);
    lemma_addr_bytes_digits_or_dots(o);
    let a = addr_text(o);
    let s = a + seq![47u8] + dec_bytes(p as int);
    let k = a.len() as int;
    assert(is_the_slash(s, k)) by {
        assert(forall|j: int| 0 <= j < k ==> s[j] == a[j] && s[j] != 47);
        assert(forall|j: int|
            k < j < s.len() ==> s[j] == dec_bytes(p as int)[j - k - 1] && is_digit_byte(s[j]));
    }
    assert(the_slash(s) == k) by {
        let c = the_slash(s);
        assert(is_the_slash(s, c));
        if c != k {
            assert(s[c] != 47);
        }
    }
    assert(addr_part(s) =~= a);
    assert(prefix_part(s) =~= dec_bytes(p as int));
}

/// Every byte of a canonical address text is a digit or a dot.
proof fn lemma_addr_bytes_digits_or_dots(o: [u8; 4])
    ensures
        forall|j: int|
            0 <= j < addr_text(o).len() ==> addr_text(o)[j] == 46 || is_digit_byte(
                addr_text(o)[j],
            ),
{
    lemma_dec_bytes_valid(o[0] as int);
    lemma_dec_bytes_valid(o[1] as int);
    lemma_dec_bytes_valid(o[2] as int);
    lemma_dec_bytes_valid(o[3] as int);
}

/// `lemma_no_dot_invalid` restated for a dotless window of a larger
/// sequence.
proof fn lemma_no_dot_abs(s: Seq<u8>, from: int, to: int, n: nat)
    requires
        0 <= from <= to <= s.len(),
        n >= 2,
        forall|j: int| from <= j < to ==> s[j] != 46,
    ensures
        !valid_octets_text(s.subrange(from, to), n),
{
    let sub = s.subrange(from, to);
    assert(forall|j: int| 0 <= j < sub.len() ==> sub[j] == s[from + j]);
    lemma_no_dot_invalid(sub, n);
}

/// `lemma_first_dot_split` restated for a window of a larger sequence,
/// with the dot given by its absolute position.
proof fn lemma_first_dot_split_abs(s: Seq<u8>, from: int, d: int, to: int, n: nat)
    requires
        0 <= from <= d < to <= s.len(),
        n >= 2,
        s[d] == 46,
        forall|j: int| from <= j < d ==> s[j] != 46,
    ensures
        valid_octets_text(s.subrange(from, to), n) <==> (valid_octet_text(s.subrange(from, d))
            && valid_octets_text(s.subrange(d + 1, to), (n - 1) as nat)),
{
    let sub = s.subrange(from, to);
    assert(forall|j: int| 0 <= j < sub.len() ==> sub[j] == s[from + j]);
    lemma_first_dot_split(sub, n, d - from);
    assert(sub.subrange(0, d - from) =~= s.subrange(from, d));
    assert(sub.subrange(d - from + 1, sub.len() as int) =~= s.subrange(d + 1, to));
}

/// `lemma_addr_text_parts` restated for a window of a larger sequence,
/// with the dots given by their absolute positions.
proof fn lemma_addr_text_abs(s: Seq<u8>, from: int, d1: int, d2: int, d3: int, to: int, o: [u8; 4])
    requires
        0 <= from <= d1 < d2 && d2 < d3 < to <= s.len(),
        s[d1] == 46,
        s[d2] == 46,
        s[d3] == 46,
        s.subrange(from, d1) == dec_bytes(o[0] as int),
        s.subrange(d1 + 1, d2) == dec_bytes(o[1] as int),
        s.subrange(d2 + 1, d3) == dec_bytes(o[2] as int),
        s.subrange(d3 + 1, to) == dec_bytes(o[3] as int),
    ensures
        s.subrange(from, to) == addr_text(o),
{
    let sub = s.subrange(from, to);
    assert(sub.subrange(0, d1 - from) =~= s.subrange(from, d1));
    assert(sub.subrange(d1 - from + 1, d2 - from) =~= s.subrange(d1 + 1, d2));
    assert(sub.subrange(d2 - from + 1, d3 - from) =~= s.subrange(d2 + 1, d3));
    assert(sub.subrange(d3 - from + 1, sub.len() as int) =~= s.subrange(d3 + 1, to));
    lemma_addr_text_parts(sub, o, d1 - from, d2 - from, d3 - from);
}

/// The first position in [`from`, `to`) of `s` holding `target`.
fn find_byte(s: &[u8], target: u8, from: usize, to: usize) -> (r: Option<usize>)
    requires
        from <= to <= s@.len(),
    ensures
        r matches Some(i) ==> from <= i < to && s@[i as int] == target && (forall|j: int|
            from <= j < i ==> s@[j] != target),
        r is None ==> forall|j: int| from <= j < to ==> s@[j] != target,
{
    let mut k: usize = from;
    while k < to
        invariant
            from <= k <= to <= s@.len(),
            forall|j: int| from <= j < k ==> s@[j] != target,
        decreases to - k,
    {
        if s[k] == target {
            return Some(k);
        }
        k += 1;
    }
    None
}

/// Parses the bytes in [`from`, `to`) of `s` as one octet. Returns the
/// value exactly when that range is a well-formed octet text.
fn parse_octet(s: &[u8], from: usize, to: usize) -> (r: Option<u8>)
    requires
        from <= to <= s@.len(),
    ensures
        (r is Some) <==> valid_octet_text(s@.subrange(from as int, to as int)),
        r matches Some(v) ==> s@.subrange(from as int, to as int) == dec_bytes(v as int) && v as int
            == dec_value(s@.subrange(from as int, to as int)),
{
    let ghost sub = s@.subrange(from as int, to as int);
    let len: usize = to - from;
    if len == 0 || len > 3 {
        return None;
    }
    let mut k: usize = from;
    while k < to
        invariant
            from <= k <= to <= s@.len(),
            sub == s@.subrange(from as int, to as int),
            forall|i: int| 0 <= i < k - from ==> is_digit_byte(sub[i]),
        decreases to - k,
    {
        let b: u8 = s[k];
        if b < 48 || b > 57 {
            proof {
                assert(sub[k - from] == s@[k as int]);
            }
            return None;
        }
        k += 1;
    }
    proof {
        assert(all_digits(sub));
    }
    if len > 1 && s[from] == 48 {
        return None;
    }
    proof {
        assert(sub[0] == s@[from as int]);
        if len >= 2 {
            assert(sub[1] == s@[from as int + 1]);
        }
        if len == 3 {
            assert(sub[2] == s@[from as int + 2]);
        }
    }
    let v: u16 = if len == 1 {
        (s[from] - 48) as u16
    } else if len == 2 {
        (s[from] - 48) as u16 * 10 + (s[from + 1] - 48) as u16
    } else {
        (s[from] - 48) as u16 * 100 + (s[from + 1] - 48) as u16 * 10 + (s[from + 2] - 48) as u16
    };
    proof {
        if len == 1 {
            lemma_dec_value1(sub);
        } else if len == 2 {
            lemma_dec_value2(sub);
        } else {
            lemma_dec_value3(sub);
        }
        assert(v as int == dec_value(sub));
    }
    if v > 255 {
        return None;
    }
    proof {
        lemma_octet_canonical(sub);
    }
    Some(v as u8)
}

/// Parses the bytes in [`from`, `to`) of `s` as four dot-separated
/// octets. Returns them exactly when that range is well formed; the
/// range is then the canonical rendering of the result.
#[verifier::rlimit(100)]
fn parse_addr(s: &[u8], from: usize, to: usize) -> (r: Option<[u8; 4]>)
    requires
        from <= to <= s@.len(),
    ensures
        (r is Some) <==> valid_octets_text(s@.subrange(from as int, to as int), 4),
        r matches Some(o) ==> s@.subrange(from as int, to as int) == addr_text(o),
{
    let d1 = match find_byte(s, 46, from, to) {
        Some(d) => d,
        None => {
            proof {
                lemma_no_dot_abs(s@, from as int, to as int, 4);
            }
            return None;
        },
    };
    proof {
        lemma_first_dot_split_abs(s@, from as int, d1 as int, to as int, 4);
    }
    let o0 = match parse_octet(s, from, d1) {
        Some(v) => v,
        None => {
            return None;
        },
    };
    let d2 = match find_byte(s, 46, d1 + 1, to) {
        Some(d) => d,
        None => {
            proof {
                lemma_no_dot_abs(s@, d1 as int + 1, to as int, 3);
            }
            return None;
        },
    };
    proof {
        lemma_first_dot_split_abs(s@, d1 as int + 1, d2 as int, to as int, 3);
    }
    let o1 = match parse_octet(s, d1 + 1, d2) {
        Some(v) => v,
        None => {
            return None;
        },
    };
    let d3 = match find_byte(s, 46, d2 + 1, to) {
        Some(d) => d,
        None => {
            proof {
                lemma_no_dot_abs(s@, d2 as int + 1, to as int, 2);
            }
            return None;
        },
    };
    proof {
        lemma_first_dot_split_abs(s@, d2 as int + 1, d3 as int, to as int, 2);
    }
    let o2 = match parse_octet(s, d2 + 1, d3) {
        Some(v) => v,
        None => {
            return None;
        },
    };
    let o3 = match parse_octet(s, d3 + 1, to) {
        Some(v) => v,
        None => {
            return None;
        },
    };
    let r: [u8; 4] = [o0, o1, o2, o3];
    proof {
        assert(r[0] == o0 && r[1] == o1 && r[2] == o2 && r[3] == o3);
        lemma_addr_text_abs(s@, from as int, d1 as int, d2 as int, d3 as int, to as int, r);
    }
    Some(r)
}

/// Parses the bytes in [`from`, `to`) of `s` as a prefix length.
/// Returns the value exactly when that range is a well-formed prefix
/// text with value at most 32.
fn parse_prefix(s: &[u8], from: usize, to: usize) -> (r: Option<u8>)
    requires
        from <= to <= s@.len(),
    ensures
        (r is Some) <==> valid_prefix_text(s@.subrange(from as int, to as int)),
        r matches Some(p) ==> p as int == prefix_value(s@.subrange(from as int, to as int))
            && p <= 32,
{
    let ghost sub = s@.subrange(from as int, to as int);
    let mut k: usize = from;
    if k < to && s[k] == 43 {
        k += 1;
    }
    let ghost body = s@.subrange(k as int, to as int);
    proof {
        assert(body =~= prefix_body(sub));
    }
    if k == to {
        return None;
    }
    let mut j: usize = k;
    while j < to
        invariant
            from <= k <= j <= to <= s@.len(),
            sub == s@.subrange(from as int, to as int),
            body == s@.subrange(k as int, to as int),
            body == prefix_body(sub),
            forall|i: int| 0 <= i < j - k ==> is_digit_byte(body[i]),
        decreases to - j,
    {
        let b: u8 = s[j];
        if b < 48 || b > 57 {
            proof {
                assert(body[j - k] == s@[j as int]);
                assert(!all_digits(body));
                assert(!valid_prefix_text(sub));
            }
            return None;
        }
        j += 1;
    }
    proof {
        assert(all_digits(body));
    }
    let mut acc: u32 = 0;
    let mut i: usize = k;
    proof {
        assert(body.subrange(0, 0) =~= Seq::<u8>::empty());
    }
    while i < to
        invariant
            from <= k <= i <= to <= s@.len(),
            k < to,
            sub == s@.subrange(from as int, to as int),
            body == s@.subrange(k as int, to as int),
            body == prefix_body(sub),
            all_digits(body),
            acc as int == dec_value(body.subrange(0, i - k)),
            acc <= 32,
        decreases to - i,
    {
        proof {
            assert(body[i - k] == s@[i as int]);
            lemma_dec_value_step(body, i - k);
        }
        let b: u8 = s[i];
        acc = acc * 10 + (b - 48) as u32;
        i += 1;
        if acc > 32 {
            proof {
                assert(body.subrange(0, body.len() as int) =~= body);
                lemma_dec_value_prefix_le(body, i - k);
                assert(dec_value(body) > 32);
                assert(!valid_prefix_text(sub));
            }
            return None;
        }
    }
    proof {
        assert(body.subrange(0, body.len() as int) =~= body);
    }
    Some(acc as u8)
}

/// Parses an input of the form `A.B.C.D/P`: four dotted decimal octets,
/// a slash, and a prefix length in [0, 32]. Each rejected input is
/// charged to the first stage that fails: the overall shape, the
/// address, then the prefix.
pub fn parse_input(input: &[u8]) -> (r: Result<([u8; 4], u8), ParseError>)
    ensures
        r == Err::<([u8; 4], u8), ParseError>(ParseError::InvalidFormat) <==> !exactly_one_slash(
            input@,
        ),
        exactly_one_slash(input@) ==> (r == Err::<([u8; 4], u8), ParseError>(
            ParseError::InvalidAddress,
        ) <==> !valid_octets_text(addr_part(input@), 4)),
        exactly_one_slash(input@) && valid_octets_text(addr_part(input@), 4) ==> (r == Err::<
            ([u8; 4], u8),
            ParseError,
        >(ParseError::InvalidPrefix) <==> !valid_prefix_text(prefix_part(input@))),
        r is Ok <==> exactly_one_slash(input@) && valid_octets_text(addr_part(input@), 4)
            && valid_prefix_text(prefix_part(input@)),
        r matches Ok(v) ==> addr_part(input@) == addr_text(v.0) && v.1 as int == prefix_value(
            prefix_part(input@),
        ) && v.1 <= 32,
{
    let n: usize = input.len();
    let f = match find_byte(input, 47, 0, n) {
        Some(f) => f,
        None => {
            proof {
                assert(!exactly_one_slash(input@));
            }
            return Err(ParseError::InvalidFormat);
        },
    };
    match find_byte(input, 47, f + 1, n) {
        Some(g) => {
            proof {
                assert(input@[f as int] == 47 && input@[g as int] == 47 && f < g);
                assert(!exactly_one_slash(input@)) by {
                    if exactly_one_slash(input@) {
                        let i = choose|i: int| is_the_slash(input@, i);
                        assert(i != f as int || i != g as int);
                    }
                }
            }
            return Err(ParseError::InvalidFormat);
        },
        None => {},
    }
    proof {
        assert(is_the_slash(input@, f as int));
        assert(the_slash(input@) == f as int) by {
            let c = the_slash(input@);
            assert(is_the_slash(input@, c));
            if c != f as int {
                assert(input@[c] != 47);
            }
        }
    }
    let o = match parse_addr(input, 0, f) {
        Some(o) => o,
        None => {
            return Err(ParseError::InvalidAddress);
        },
    };
    let p = match parse_prefix(input, f + 1, n) {
        Some(p) => p,
        None => {
            return Err(ParseError::InvalidPrefix);
        },
    };
    Ok((o, p))
}

} // verus!
