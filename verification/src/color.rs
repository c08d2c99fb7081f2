//! Colors: parsing of `#AARRGGBB` strings and the packed `0xRRGGBBAA` layout
//! in which the SDF shader receives colors.
use vstd::prelude::*;
use vstd::string::StringSliceAdditionalSpecFns;
use vstd::utf8::is_continuation_byte;

verus! {

/// Why a color string was refused.
#[derive(Debug, Clone, Copy, PartialEq, Eq, Structural)]
pub enum ColorParseError {
    /// Without its leading `#` signs the text is not 8 bytes long.
    InvalidFormat,
    /// One of the four two-byte fields is not a hexadecimal number.
    InvalidDigit,
}

/// Number of `#` bytes at the start of `b`.
pub open spec fn leading_hashes(b: Seq<u8>) -> nat
    decreases b.len(),
{
    if b.len() > 0 && b[0] == 0x23 {
        1 + leading_hashes(b.drop_first())
    } else {
        0
    }
}

/// `b` without its leading `#` bytes.
pub open spec fn strip_hashes(b: Seq<u8>) -> Seq<u8> {
    b.skip(leading_hashes(b) as int)
}

/// Value of an ASCII hexadecimal digit.
pub open spec fn hex_digit(c: u8) -> Option<u8> {
    if 0x30 <= c <= 0x39 {
        Some((c - 0x30) as u8)
    } else if 0x61 <= c <= 0x66 {
        Some((c - 0x61 + 10) as u8)
    } else if 0x41 <= c <= 0x46 {
        Some((c - 0x41 + 10) as u8)
    } else {
        None
    }
}

/// Value of a two-byte field read as an unsigned hexadecimal number: two digits,
/// or a `+` sign followed by one digit.
pub open spec fn hex_field(c0: u8, c1: u8) -> Option<u8> {
    if c0 == 0x2b {
        hex_digit(c1)
    } else {
        match (hex_digit(c0), hex_digit(c1)) {
            (Some(h), Some(l)) => Some((h * 16 + l) as u8),
            _ => None,
        }
    }
}

/// The channels `[r, g, b, a]` that the text of bytes `b` denotes in
/// `#AARRGGBB` form, or why it denotes none.
pub open spec fn spec_parse_color(b: Seq<u8>) -> Result<Seq<u8>, ColorParseError> {
    let t = strip_hashes(b);
    if t.len() != 8 {
        Err(ColorParseError::InvalidFormat)
    } else {
        match (hex_field(t[0], t[1]), hex_field(t[2], t[3]), hex_field(t[4], t[5]), hex_field(t[6], t[7])) {
            (Some(a), Some(r), Some(g), Some(bl)) => Ok(seq![r, g, bl, a]),
            _ => Err(ColorParseError::InvalidDigit),
        }
    }
}

/// The two-byte fields of the text start on character boundaries.
pub open spec fn color_fields_on_char_boundaries(b: Seq<u8>) -> bool {
    let t = strip_hashes(b);
    t.len() == 8 ==> !is_continuation_byte(t[2]) && !is_continuation_byte(t[4])
        && !is_continuation_byte(t[6])
}

fn hex_digit_of(c: u8) -> (r: Option<u8>)
    ensures
        r == hex_digit(c),
{
    if 0x30 <= c && c <= 0x39 {
        Some(c - 0x30)
    } else if 0x61 <= c && c <= 0x66 {
        Some(c - 0x61 + 10)
    } else if 0x41 <= c && c <= 0x46 {
        Some(c - 0x41 + 10)
    } else {
        None
    }
}

fn hex_field_of(c0: u8, c1: u8) -> (r: Option<u8>)
    ensures
        r == hex_field(c0, c1),
{
    if c0 == 0x2b {
        hex_digit_of(c1)
    } else {
        match (hex_digit_of(c0), hex_digit_of(c1)) {
            (Some(h), Some(l)) => Some(h * 16 + l),
            _ => None,
        }
    }
}

proof fn lemma_leading_hashes(b: Seq<u8>, k: int)
    requires
        0 <= k <= b.len(),
        forall|j: int| 0 <= j < k ==> b[j] == 0x23,
        k == b.len() || b[k] != 0x23,
    ensures
        leading_hashes(b) == k,
    decreases k,
{
    if k > 0 {
        lemma_leading_hashes(b.drop_first(), k - 1);
    }
}

/// Parses a color in `#AARRGGBB` form (leading `#` signs are ignored) into its
/// channels `[r, g, b, a]`.
pub fn parse_color(s: &str) -> (r: Result<[u8; 4], ColorParseError>)
    requires
        color_fields_on_char_boundaries(s.spec_bytes()),
    ensures
        match r {
            Ok(c) => spec_parse_color(s.spec_bytes()) == Ok::<Seq<u8>, ColorParseError>(c@),
            Err(e) => spec_parse_color(s.spec_bytes()) == Err::<Seq<u8>, ColorParseError>(e),
        },
{
    let b = s.as_bytes();
    let mut k: usize = 0;
    while k < b.len() && b[k] == 0x23
        invariant
            k <= b@.len(),
            forall|j: int| 0 <= j < k ==> b@[j] == 0x23,
        decreases b.len() - k,
    {
        k = k + 1;
    }
    proof {
        lemma_leading_hashes(b@, k as int);
    }
    let ghost t = strip_hashes(b@);
    if b.len() - k != 8 {
        return Err(ColorParseError::InvalidFormat);
    }
    proof {
        assert forall|j: int| 0 <= j < 8 implies t[j] == b@[k + j] by {}
    }
    let a = hex_field_of(b[k], b[k + 1]);
    let red = hex_field_of(b[k + 2], b[k + 3]);
    let g = hex_field_of(b[k + 4], b[k + 5]);
    let bl = hex_field_of(b[k + 6], b[k + 7]);
    match (a, red, g, bl) {
        (Some(a), Some(red), Some(g), Some(bl)) => {
            let c = [red, g, bl, a];
            assert(c@ =~= seq![red, g, bl, a]);
            Ok(c)
        },
        _ => Err(ColorParseError::InvalidDigit),
    }
}

/// Packs four channels as `0xRRGGBBAA`: each channel is shifted into its byte
/// and the results are or-ed (a channel above 255 spills into the bytes above).
pub fn pack_color(r: u32, g: u32, b: u32, a: u32) -> (packed: u32)
    ensures
        packed == (r << 24u32) | (g << 16u32) | (b << 8u32) | a,
        r <= 255 && g <= 255 && b <= 255 && a <= 255 ==> packed == r * 0x100_0000 + g * 0x1_0000
            + b * 0x100 + a,
{
    proof {
        lemma_pack_arith(r, g, b, a);
    }
    (r << 24) | (g << 16) | (b << 8) | a
}

proof fn lemma_pack_arith(r: u32, g: u32, b: u32, a: u32)
    ensures
        r <= 255 && g <= 255 && b <= 255 && a <= 255 ==> (r << 24u32) | (g << 16u32) | (b << 8u32)
            | a == r * 0x100_0000 + g * 0x1_0000 + b * 0x100 + a,
{
    assert(r <= 255 && g <= 255 && b <= 255 && a <= 255 ==> (r << 24u32) | (g << 16u32) | (b
        << 8u32) | a == r * 0x100_0000 + g * 0x1_0000 + b * 0x100 + a) by (bit_vector);
}

/// Replaces the alpha byte of a packed `0xRRGGBBAA` color by the low byte of
/// `alpha`, keeping the color bytes.
pub fn repack_with_alpha(packed: u32, alpha: u32) -> (r: u32)
    ensures
        r == (packed & 0xFFFF_FF00u32) | (alpha & 0xFFu32),
        r >> 8u32 == packed >> 8u32,
        r & 0xFFu32 == alpha & 0xFFu32,
{
    let out = (packed & 0xFFFF_FF00) | (alpha & 0xFF);
    assert(out >> 8u32 == packed >> 8u32 && out & 0xFFu32 == alpha & 0xFFu32) by (bit_vector)
        requires
            out == (packed & 0xFFFF_FF00u32) | (alpha & 0xFFu32),
    ;
    out
}

/// The channels `[r, g, b, a]` of a packed `0xRRGGBBAA` color.
pub open spec fn unpacked(packed: u32) -> (u32, u32, u32, u32) {
    ((packed >> 24u32) & 0xFFu32, (packed >> 16u32) & 0xFFu32, (packed >> 8u32) & 0xFFu32, packed
        & 0xFFu32)
}

/// Packing loses nothing: the channels of a packed color are the channels that
/// were packed, when each fits in a byte.
pub proof fn law_unpack_pack(r: u32, g: u32, b: u32, a: u32)
    requires
        r <= 255,
        g <= 255,
        b <= 255,
        a <= 255,
    ensures
        unpacked((r << 24u32) | (g << 16u32) | (b << 8u32) | a) == (r, g, b, a),
{
    assert(((((r << 24u32) | (g << 16u32) | (b << 8u32) | a) >> 24u32) & 0xFFu32) == r && (((((r
        << 24u32) | (g << 16u32) | (b << 8u32) | a) >> 16u32) & 0xFFu32) == g) && (((((r << 24u32)
        | (g << 16u32) | (b << 8u32) | a) >> 8u32) & 0xFFu32) == b) && ((((r << 24u32) | (g
        << 16u32) | (b << 8u32) | a) & 0xFFu32) == a)) by (bit_vector)
        requires
            r <= 255,
            g <= 255,
            b <= 255,
            a <= 255,
    ;
}

/// Repacking with a new alpha keeps the color channels and sets the alpha
/// channel; repacking twice is repacking once with the second alpha.
pub proof fn law_repack_alpha(packed: u32, a1: u32, a2: u32)
    ensures
        unpacked((packed & 0xFFFF_FF00u32) | (a1 & 0xFFu32)).0 == unpacked(packed).0,
        unpacked((packed & 0xFFFF_FF00u32) | (a1 & 0xFFu32)).1 == unpacked(packed).1,
        unpacked((packed & 0xFFFF_FF00u32) | (a1 & 0xFFu32)).2 == unpacked(packed).2,
        unpacked((packed & 0xFFFF_FF00u32) | (a1 & 0xFFu32)).3 == a1 & 0xFFu32,
        (((packed & 0xFFFF_FF00u32) | (a1 & 0xFFu32)) & 0xFFFF_FF00u32) | (a2 & 0xFFu32) == (packed
            & 0xFFFF_FF00u32) | (a2 & 0xFFu32),
{
    let p1 = (packed & 0xFFFF_FF00u32) | (a1 & 0xFFu32);
    assert(((p1 >> 24u32) & 0xFFu32) == ((packed >> 24u32) & 0xFFu32) && ((p1 >> 16u32) & 0xFFu32)
        == ((packed >> 16u32) & 0xFFu32) && ((p1 >> 8u32) & 0xFFu32) == ((packed >> 8u32) & 0xFFu32)
        && (p1 & 0xFFu32) == (a1 & 0xFFu32) && ((p1 & 0xFFFF_FF00u32) | (a2 & 0xFFu32)) == ((
    packed & 0xFFFF_FF00u32) | (a2 & 0xFFu32))) by (bit_vector)
        requires
            p1 == (packed & 0xFFFF_FF00u32) | (a1 & 0xFFu32),
    ;
}

/// Hexadecimal digits have their standard values, in either case: `0`-`9`
/// are 0-9, and `a`-`f` and `A`-`F` are both 10-15; nothing else is a digit.
pub proof fn law_hex_digit_values(k: u8, c: u8)
    ensures
        k < 10 ==> hex_digit((0x30 + k) as u8) == Some(k),
        10 <= k < 16 ==> hex_digit((0x61 + k - 10) as u8) == Some(k) && hex_digit((0x41 + k - 10) as u8)
            == Some(k),
        hex_digit(c) matches Some(v) ==> v < 16 && (c == 0x30 + v || c == 0x61 + v - 10 || c == 0x41
            + v - 10),
        hex_field(0x2b, c) == hex_digit(c),
        c != 0x2b && hex_digit(c) is Some ==> hex_field(c, (0x30 + (k % 10)) as u8) == Some(
            (hex_digit(c)->0 * 16 + k % 10) as u8,
        ),
{
}

/// A hexadecimal digit character, either case.
pub open spec fn is_hex_char(c: u8) -> bool {
    (0x30 <= c <= 0x39) || (0x61 <= c <= 0x66) || (0x41 <= c <= 0x46)
}

/// Every text of eight hexadecimal digits is a color: its channels are the
/// base-16 values of the digit pairs, alpha first in the text and last in
/// the result.
pub proof fn law_hex_colors_parse(b: Seq<u8>)
    requires
        b.len() == 8,
        forall|i: int| 0 <= i < 8 ==> is_hex_char(#[trigger] b[i]),
    ensures
        spec_parse_color(b) == Ok::<Seq<u8>, ColorParseError>(
            seq![
                (hex_digit(b[2])->0 * 16 + hex_digit(b[3])->0) as u8,
                (hex_digit(b[4])->0 * 16 + hex_digit(b[5])->0) as u8,
                (hex_digit(b[6])->0 * 16 + hex_digit(b[7])->0) as u8,
                (hex_digit(b[0])->0 * 16 + hex_digit(b[1])->0) as u8,
            ],
        ),
{
    assert(is_hex_char(b[0]));
    assert(leading_hashes(b) == 0);
    assert(strip_hashes(b) =~= b);
    assert(is_hex_char(b[1]) && is_hex_char(b[2]) && is_hex_char(b[3]) && is_hex_char(b[4]));
    assert(is_hex_char(b[5]) && is_hex_char(b[6]) && is_hex_char(b[7]));
}

proof fn lemma_leading_hashes_bound(b: Seq<u8>)
    ensures
        leading_hashes(b) <= b.len(),
    decreases b.len(),
{
    if b.len() > 0 && b[0] == 0x23 {
        lemma_leading_hashes_bound(b.drop_first());
    }
}

/// Leading `#` signs are ignored, and a text of any other length than eight
/// (once they are dropped) is refused as malformed.
pub proof fn law_color_format(b: Seq<u8>)
    ensures
        spec_parse_color(seq![0x23u8] + b) == spec_parse_color(b),
        (b.len() == 0 || b[0] != 0x23) && b.len() != 8 ==> spec_parse_color(b) == Err::<Seq<u8>, ColorParseError>(
            ColorParseError::InvalidFormat,
        ),
{
    let h = seq![0x23u8] + b;
    assert(h.drop_first() =~= b);
    assert(leading_hashes(h) == 1 + leading_hashes(b));
    lemma_leading_hashes_bound(b);
    let n = leading_hashes(b) as int;
    assert forall|j: int| 0 <= j < b.len() - n implies #[trigger] h.skip(1 + n)[j] == b.skip(n)[j] by {
        assert(h[1 + n + j] == b[n + j]);
    }
    assert(h.skip(1 + n) =~= b.skip(n));
    if b.len() == 0 || b[0] != 0x23 {
        assert(leading_hashes(b) == 0);
        assert(strip_hashes(b) =~= b);
    }
}

} // verus!
