//! The codec itself: bit-width selection, header layout, bit packing and
//! unpacking, and the printable-text framing over a 64-symbol alphabet.

use vstd::prelude::*;
use vstd::arithmetic::power2::pow2;
use vstd::arithmetic::div_mod::{lemma_fundamental_div_mod, lemma_mod_multiples_basic};
use vstd::string::StringExecFns;
use crate::bits::{bits_of, value_of, lemma_bits_of_len, lemma_value_of_bits_of,
    lemma_value_of_bound, lemma_bits_of_value_of, push_bits, read_value};

verus! {

/// Relies on `String::push`: appends the given character to the end of the
/// string, and does nothing else to it.
pub assume_specification[ String::push ](s: &mut String, c: char)
    ensures
        final(s)@ == old(s)@.push(c),
;

/// Why an encode or decode call failed.
#[derive(Clone, Copy, Debug, PartialEq, Eq, Structural)]
pub enum CodecError {
    /// An input number of `serialize` lies outside 1..=300.
    RangeError,
    /// The two-bit width code of a decoded header is the unassigned one.
    InvalidHeader,
    /// A character of the input text is not in the 64-symbol alphabet.
    InvalidCharacter,
    /// The input text holds fewer bits than its header declares.
    TruncatedInput,
}

/// Every number the codec carries lies in this closed range.
pub open spec fn in_range(n: u16) -> bool {
    1 <= n <= 300
}

pub open spec fn all_in_range(s: Seq<u16>) -> bool {
    forall|i: int| 0 <= i < s.len() ==> in_range(#[trigger] s[i])
}

/// The minimum of the three supported widths {4, 7, 9} that fits every
/// element of `s`. An empty sequence gets the smallest width.
pub open spec fn spec_width(s: Seq<u16>) -> nat {
    if forall|i: int| 0 <= i < s.len() ==> #[trigger] s[i] < 10 {
        4
    } else if forall|i: int| 0 <= i < s.len() ==> #[trigger] s[i] < 100 {
        7
    } else {
        9
    }
}

/// Every in-range element fits in the selected width.
pub proof fn lemma_width_fits(s: Seq<u16>, i: int)
    requires
        all_in_range(s),
        0 <= i < s.len(),
    ensures
        (s[i] as nat) < pow2(spec_width(s)),
{
    vstd::arithmetic::power2::lemma2_to64();
}

/// Picks the fixed bit width used for every element: 4 when the maximum is
/// below 10, 7 when it is below 100, and 9 otherwise.
pub fn determine_bits_per_number(numbers: &Vec<u16>) -> (r: u8)
    requires
        numbers@.len() > 0,
    ensures
        r as nat == spec_width(numbers@),
{
    let mut max: u16 = numbers[0];
    let mut i: usize = 1;
    while i < numbers.len()
        invariant
            1 <= i <= numbers@.len(),
            forall|j: int| 0 <= j < i ==> #[trigger] numbers@[j] <= max,
            exists|j: int| 0 <= j < i && numbers@[j] == max,
        decreases numbers@.len() - i,
    {
        if numbers[i] > max {
            max = numbers[i];
        }
        i = i + 1;
    }
    if max < 10 {
        4
    } else if max < 100 {
        7
    } else {
        9
    }
}

/// The character standing for the 6-bit group `i`: `A`-`Z`, then `a`-`z`,
/// then `0`-`9`, then `+` and `/`.
pub open spec fn spec_char_of(i: nat) -> char {
    if i < 26 {
        (65 + i) as char
    } else if i < 52 {
        (97 + (i - 26)) as char
    } else if i < 62 {
        (48 + (i - 52)) as char
    } else if i == 62 {
        '+'
    } else {
        '/'
    }
}

/// The position of `c` in the alphabet, or -1 when `c` is not in it.
pub open spec fn spec_index_of(c: char) -> int {
    let x = c as int;
    if 65 <= x <= 90 {
        x - 65
    } else if 97 <= x <= 122 {
        26 + (x - 97)
    } else if 48 <= x <= 57 {
        52 + (x - 48)
    } else if x == 43 {
        62
    } else if x == 47 {
        63
    } else {
        -1
    }
}

pub open spec fn in_alphabet(c: char) -> bool {
    spec_index_of(c) >= 0
}

/// Looking a character up by its index and taking the index of that
/// character are mutually inverse.
pub proof fn lemma_alphabet_roundtrip(i: nat)
    requires
        i < 64,
    ensures
        in_alphabet(spec_char_of(i)),
        spec_index_of(spec_char_of(i)) == i,
{
}

fn char_of_index(i: u8) -> (c: char)
    requires
        i < 64,
    ensures
        c == spec_char_of(i as nat),
{
    let v: u8 = if i < 26 {
        65 + i
    } else if i < 52 {
        97 + (i - 26)
    } else if i < 62 {
        48 + (i - 52)
    } else if i == 62 {
        43
    } else {
        47
    };
    v as char
}

/// The two-bit code naming the selected width.
pub open spec fn width_code(w: nat) -> Seq<bool> {
    if w == 4 {
        seq![false, false]
    } else if w == 7 {
        seq![false, true]
    } else {
        seq![true, false]
    }
}

/// The leading flag and count field: a 0 flag with a 6-bit count for short
/// sequences, a 1 flag with a 10-bit count otherwise.
pub open spec fn count_bits(n: nat) -> Seq<bool> {
    if n < 64 {
        seq![false] + bits_of(n, 6)
    } else {
        seq![true] + bits_of(n, 10)
    }
}

/// The full header: flag, count, and the two-bit width code.
pub open spec fn header_bits(s: Seq<u16>) -> Seq<bool> {
    count_bits(s.len()) + width_code(spec_width(s))
}

/// Every element in order, each as a fixed `w`-bit big-endian field.
pub open spec fn payload_bits(s: Seq<u16>, w: nat) -> Seq<bool>
    decreases s.len(),
{
    if s.len() == 0 {
        Seq::empty()
    } else {
        payload_bits(s.drop_last(), w) + bits_of(s.last() as nat, w)
    }
}

/// How many zero bits bring a stream of `n` bits to a multiple of 6.
pub open spec fn pad_len(n: nat) -> nat {
    (((6 - n % 6) % 6) as nat)
}

pub open spec fn zeros(n: nat) -> Seq<bool> {
    Seq::new(n, |i: int| false)
}

/// Header and payload, before padding.
pub open spec fn core_bits(s: Seq<u16>) -> Seq<bool> {
    header_bits(s) + payload_bits(s, spec_width(s))
}

/// The complete bitstream: header, payload, and zero padding to a multiple
/// of 6 bits.
pub open spec fn stream_bits(s: Seq<u16>) -> Seq<bool> {
    core_bits(s) + zeros(pad_len(core_bits(s).len()))
}

/// Renders a bitstream (whose length is a multiple of 6) as text, one
/// alphabet character per 6-bit group, most significant bit first.
pub open spec fn frame(bits: Seq<bool>) -> Seq<char> {
    Seq::new(bits.len() / 6, |k: int| spec_char_of(value_of(bits.subrange(6 * k, 6 * k + 6))))
}

/// What `serialize` returns on in-range input.
pub open spec fn spec_encode(s: Seq<u16>) -> Seq<char> {
    frame(stream_bits(s))
}

/// Padding really brings the stream to a multiple of 6 bits.
pub proof fn lemma_pad_multiple(n: nat)
    ensures
        (n + pad_len(n)) % 6 == 0,
{
    let q = n as int / 6;
    let r = n as int % 6;
    lemma_fundamental_div_mod(n as int, 6);
    if r == 0 {
        lemma_mod_multiples_basic(q, 6);
    } else {
        lemma_mod_multiples_basic(q + 1, 6);
    }
}

fn index_of_char(c: char) -> (r: Option<u8>)
    ensures
        match r {
            Some(i) => i < 64 && spec_index_of(c) == i as int,
            None => !in_alphabet(c),
        },
{
    let x = c as u32;
    if 65 <= x && x <= 90 {
        Some((x - 65) as u8)
    } else if 97 <= x && x <= 122 {
        Some((26 + (x - 97)) as u8)
    } else if 48 <= x && x <= 57 {
        Some((52 + (x - 48)) as u8)
    } else if x == 43 {
        Some(62)
    } else if x == 47 {
        Some(63)
    } else {
        None
    }
}

/// The bitstream behind a text: each character's alphabet index as a 6-bit
/// big-endian group, in order. Meaningful only when every character is in
/// the alphabet.
pub open spec fn unframe(text: Seq<char>) -> Seq<bool>
    decreases text.len(),
{
    if text.len() == 0 {
        Seq::empty()
    } else {
        unframe(text.drop_last()) + bits_of(spec_index_of(text.last()) as nat, 6)
    }
}

/// Parses a reassembled bitstream: flag, count, width code, then `count`
/// fixed-width fields. Trailing bits beyond the last field are ignored.
pub open spec fn spec_decode_bits(bits: Seq<bool>) -> Result<Seq<u16>, CodecError> {
    if bits.len() < 1 {
        Err(CodecError::TruncatedInput)
    } else {
        let hdr: int = if bits[0] {
            11
        } else {
            7
        };
        if bits.len() < hdr {
            Err(CodecError::TruncatedInput)
        } else {
            let count = value_of(bits.subrange(1, hdr)) as int;
            if bits.len() < hdr + 2 {
                Err(CodecError::TruncatedInput)
            } else {
                let b0 = bits[hdr];
                let b1 = bits[hdr + 1];
                if b0 && b1 {
                    Err(CodecError::InvalidHeader)
                } else {
                    let w: int = if !b0 && !b1 {
                        4
                    } else if !b0 && b1 {
                        7
                    } else {
                        9
                    };
                    if bits.len() < hdr + 2 + count * w {
                        Err(CodecError::TruncatedInput)
                    } else {
                        Ok(
                            Seq::new(
                                count as nat,
                                |i: int|
                                    value_of(
                                        bits.subrange(hdr + 2 + i * w, hdr + 2 + (i + 1) * w),
                                    ) as u16,
                            ),
                        )
                    }
                }
            }
        }
    }
}

/// How many leading bits a successful parse of `bits` consumes; the rest is
/// padding and is never read.
pub open spec fn spec_used_bits(bits: Seq<bool>) -> int {
    let hdr: int = if bits[0] {
        11
    } else {
        7
    };
    let count = value_of(bits.subrange(1, hdr)) as int;
    let b0 = bits[hdr];
    let b1 = bits[hdr + 1];
    let w: int = if !b0 && !b1 {
        4
    } else if !b0 && b1 {
        7
    } else {
        9
    };
    hdr + 2 + count * w
}

/// What `deserialize` returns: the invalid-character scan over the whole
/// text, then the bitstream parse.
pub open spec fn spec_decode(text: Seq<char>) -> Result<Seq<u16>, CodecError> {
    if exists|k: int| 0 <= k < text.len() && !in_alphabet(#[trigger] text[k]) {
        Err(CodecError::InvalidCharacter)
    } else {
        spec_decode_bits(unframe(text))
    }
}

pub proof fn lemma_payload_len(s: Seq<u16>, w: nat)
    ensures
        payload_bits(s, w).len() == s.len() * w,
    decreases s.len(),
{
    if s.len() == 0 {
    } else {
        lemma_payload_len(s.drop_last(), w);
        lemma_bits_of_len(s.last() as nat, w);
        assert((s.len() - 1) * w + w == s.len() * w) by (nonlinear_arith);
    }
}

/// Field `i` of the payload is exactly the encoding of element `i`.
pub proof fn lemma_payload_index(s: Seq<u16>, w: nat, i: int)
    requires
        0 <= i < s.len(),
    ensures
        payload_bits(s, w).subrange(i * w, (i + 1) * w) == bits_of(s[i] as nat, w),
    decreases s.len(),
{
    let prefix = s.drop_last();
    lemma_payload_len(prefix, w);
    lemma_payload_len(s, w);
    lemma_bits_of_len(s.last() as nat, w);
    vstd::arithmetic::mul::lemma_mul_nonnegative(i, w as int);
    assert((i + 1) * w == i * w + w) by (nonlinear_arith);
    if i == s.len() - 1 {
        assert(i * w == prefix.len() * w);
        assert((i + 1) * w == s.len() * w) by (nonlinear_arith)
            requires
                i + 1 == s.len(),
        ;
        assert(payload_bits(s, w).subrange(i * w, (i + 1) * w) =~= bits_of(s.last() as nat, w));
    } else {
        vstd::arithmetic::mul::lemma_mul_inequality(i + 1, s.len() - 1, w as int);
        lemma_payload_index(prefix, w, i);
        assert(payload_bits(s, w).subrange(i * w, (i + 1) * w) =~= payload_bits(
            prefix,
            w,
        ).subrange(i * w, (i + 1) * w));
    }
}

/// Deframing a framed bitstream gives the bitstream back.
pub proof fn lemma_unframe_frame(bits: Seq<bool>)
    requires
        bits.len() % 6 == 0,
    ensures
        unframe(frame(bits)) == bits,
    decreases bits.len(),
{
    let q = bits.len() as int / 6;
    lemma_fundamental_div_mod(bits.len() as int, 6);
    if bits.len() == 0 {
        assert(unframe(frame(bits)) =~= bits);
    } else {
        let m = bits.len() - 6;
        let prefix = bits.subrange(0, m);
        let lastchunk = bits.subrange(m, bits.len() as int);
        assert(m == 6 * (q - 1));
        assert(prefix.len() % 6 == 0) by {
            lemma_mod_multiples_basic(q - 1, 6);
        }
        assert(prefix.len() as int / 6 == q - 1) by {
            vstd::arithmetic::div_mod::lemma_div_by_multiple(q - 1, 6);
        }
        lemma_unframe_frame(prefix);
        let f = frame(bits);
        let fp = frame(prefix);
        assert(f.drop_last() =~= fp) by {
            assert(forall|k: int| 0 <= k < q - 1 ==> #[trigger] prefix.subrange(6 * k, 6 * k + 6)
                =~= bits.subrange(6 * k, 6 * k + 6));
        }
        let v = value_of(lastchunk);
        assert(v < 64) by {
            lemma_value_of_bound(lastchunk);
            vstd::arithmetic::power2::lemma2_to64();
        }
        assert(f.last() == spec_char_of(v)) by {
            assert(bits.subrange(6 * (q - 1), 6 * (q - 1) + 6) =~= lastchunk);
        }
        lemma_alphabet_roundtrip(v);
        lemma_bits_of_value_of(lastchunk);
        assert(unframe(f) == unframe(fp) + bits_of(v, 6));
        assert(unframe(f) =~= bits);
    }
}

/// Packs `numbers` into a bitstream and renders it as printable text.
/// Succeeds exactly when every element lies in 1..=300; otherwise nothing is
/// produced and the offending range is reported.
pub fn serialize(numbers: &Vec<u16>) -> (r: Result<String, CodecError>)
    requires
        numbers@.len() < 1024,
    ensures
        match r {
            Ok(t) => all_in_range(numbers@) && t@ == spec_encode(numbers@),
            Err(e) => !all_in_range(numbers@) && e == CodecError::RangeError,
        },
{
    let ghost s = numbers@;
    let mut i: usize = 0;
    while i < numbers.len()
        invariant
            i <= s.len(),
            s == numbers@,
            forall|j: int| 0 <= j < i ==> in_range(#[trigger] s[j]),
        decreases s.len() - i,
    {
        let n = numbers[i];
        if n < 1 || n > 300 {
            return Err(CodecError::RangeError);
        }
        i = i + 1;
    }
    let w: u8 = if numbers.len() == 0 {
        4
    } else {
        determine_bits_per_number(numbers)
    };
    proof {
        assert(w as nat == spec_width(s));
    }

    let mut bits: Vec<bool> = Vec::new();
    let count = numbers.len() as u16;
    if numbers.len() < 64 {
        bits.push(false);
        push_bits(&mut bits, count, 6);
    } else {
        bits.push(true);
        push_bits(&mut bits, count, 10);
    }
    proof {
        assert(bits@ =~= count_bits(s.len()));
    }

    if w == 4 {
        bits.push(false);
        bits.push(false);
    } else if w == 7 {
        bits.push(false);
        bits.push(true);
    } else {
        bits.push(true);
        bits.push(false);
    }
    proof {
        assert(bits@ =~= header_bits(s));
        assert(payload_bits(s.take(0), w as nat) =~= Seq::<bool>::empty());
        assert(bits@ =~= header_bits(s) + payload_bits(s.take(0), w as nat));
    }

    let mut k: usize = 0;
    while k < numbers.len()
        invariant
            k <= s.len(),
            s == numbers@,
            s.len() < 1024,
            all_in_range(s),
            w as nat == spec_width(s),
            w <= 9,
            bits@ == header_bits(s) + payload_bits(s.take(k as int), w as nat),
        decreases s.len() - k,
    {
        push_bits(&mut bits, numbers[k], w as u16);
        proof {
            let taken = s.take(k + 1);
            assert(taken.drop_last() =~= s.take(k as int));
            assert(taken.last() == s[k as int]);
            assert(bits@ =~= header_bits(s) + payload_bits(taken, w as nat));
        }
        k = k + 1;
    }
    proof {
        assert(s.take(s.len() as int) =~= s);
        assert(bits@ == core_bits(s));
    }

    let ghost core_len = bits@.len();
    let pad = (6 - (bits.len() % 6)) % 6;
    proof {
        assert(pad == pad_len(core_len));
    }
    let mut p: usize = 0;
    while p < pad
        invariant
            p <= pad,
            pad == pad_len(core_len),
            bits@ == core_bits(s) + zeros(p as nat),
            core_len == core_bits(s).len(),
        decreases pad - p,
    {
        bits.push(false);
        proof {
            assert(bits@ =~= core_bits(s) + zeros((p + 1) as nat));
        }
        p = p + 1;
    }
    proof {
        assert(bits@ =~= stream_bits(s));
        lemma_pad_multiple(core_len);
        assert(bits@.len() % 6 == 0);
    }

    let total = bits.len();
    let nchunks = total / 6;
    proof {
        lemma_fundamental_div_mod(total as int, 6);
        assert(total == 6 * nchunks);
    }
    let mut text = String::from_str("");
    proof {
        reveal_strlit("");
        assert(text@ =~= frame(bits@).take(0));
    }
    let mut c: usize = 0;
    while c < nchunks
        invariant
            c <= nchunks,
            total == bits@.len(),
            total == 6 * nchunks,
            text@ == frame(bits@).take(c as int),
        decreases nchunks - c,
    {
        proof {
            assert(6 * (c + 1) <= 6 * nchunks);
        }
        let v = read_value(&bits, 6 * c, 6);
        proof {
            assert(pow2(6) == 64) by {
                vstd::arithmetic::power2::lemma2_to64();
            }
        }
        let ch = char_of_index(v as u8);
        text.push(ch);
        proof {
            let f = frame(bits@);
            assert(f[c as int] == spec_char_of(value_of(bits@.subrange(6 * c as int, 6 * c as int + 6))));
            assert(text@ =~= f.take(c + 1));
        }
        c = c + 1;
    }
    proof {
        assert(frame(bits@).take(nchunks as int) =~= frame(bits@));
        assert(text@ == spec_encode(s));
    }
    Ok(text)
}

/// Recovers the exact sequence of numbers a text encodes. The text is
/// untrusted: characters outside the alphabet, an unassigned width code and
/// a stream shorter than its own header declares are each rejected with
/// their own error.
pub fn deserialize(s: &str) -> (r: Result<Vec<u16>, CodecError>)
    ensures
        match r {
            Ok(v) => spec_decode(s@) == Ok::<Seq<u16>, CodecError>(v@),
            Err(e) => spec_decode(s@) == Err::<Seq<u16>, CodecError>(e),
        },
{
    let len = s.unicode_len();
    let mut bits: Vec<bool> = Vec::new();
    let mut i: usize = 0;
    proof {
        assert(bits@ =~= unframe(s@.take(0)));
    }
    while i < len
        invariant
            i <= len,
            len == s@.len(),
            forall|j: int| 0 <= j < i ==> in_alphabet(#[trigger] s@[j]),
            bits@ == unframe(s@.take(i as int)),
        decreases len - i,
    {
        let ch = s.get_char(i);
        match index_of_char(ch) {
            None => {
                proof {
                    assert(!in_alphabet(s@[i as int]));
                }
                return Err(CodecError::InvalidCharacter);
            },
            Some(idx) => {
                push_bits(&mut bits, idx as u16, 6);
                proof {
                    let taken = s@.take(i + 1);
                    assert(taken.drop_last() =~= s@.take(i as int));
                    assert(taken.last() == s@[i as int]);
                    assert(bits@ =~= unframe(taken));
                }
            },
        }
        i = i + 1;
    }
    proof {
        assert(s@.take(len as int) =~= s@);
        assert(forall|k: int| 0 <= k < s@.len() ==> in_alphabet(#[trigger] s@[k]));
        assert(spec_decode(s@) == spec_decode_bits(bits@));
    }

    let nbits = bits.len();
    if nbits < 1 {
        return Err(CodecError::TruncatedInput);
    }
    let flag = bits[0];
    let hdr: usize = if flag {
        11
    } else {
        7
    };
    if nbits < hdr {
        return Err(CodecError::TruncatedInput);
    }
    let count_val = read_value(&bits, 1, hdr - 1);
    let count = count_val as usize;
    proof {
        assert(count == value_of(bits@.subrange(1, hdr as int)));
        assert(pow2(6) == 64 && pow2(10) == 1024) by {
            vstd::arithmetic::power2::lemma2_to64();
        }
        assert(count < 1024);
    }
    if nbits < hdr + 2 {
        return Err(CodecError::TruncatedInput);
    }
    let b0 = bits[hdr];
    let b1 = bits[hdr + 1];
    if b0 && b1 {
        return Err(CodecError::InvalidHeader);
    }
    let w: usize = if !b0 && !b1 {
        4
    } else if !b0 && b1 {
        7
    } else {
        9
    };
    proof {
        vstd::arithmetic::mul::lemma_mul_upper_bound(count as int, 1023, w as int, 9);
    }
    if nbits < hdr + 2 + count * w {
        return Err(CodecError::TruncatedInput);
    }

    let mut numbers: Vec<u16> = Vec::new();
    let mut k: usize = 0;
    let mut pos: usize = hdr + 2;
    while k < count
        invariant
            k <= count,
            pos == hdr + 2 + k * w,
            hdr + 2 + count * w <= nbits,
            nbits == bits@.len(),
            4 <= w <= 9,
            hdr == 7 || hdr == 11,
            count < 1024,
            numbers@.len() == k,
            forall|j: int| 0 <= j < k ==> #[trigger] numbers@[j] == value_of(
                bits@.subrange(hdr + 2 + j * w, hdr + 2 + (j + 1) * w),
            ) as u16,
        decreases count - k,
    {
        proof {
            vstd::arithmetic::mul::lemma_mul_inequality(k + 1, count as int, w as int);
            assert((k + 1) * w == k * w + w) by (nonlinear_arith);
        }
        let v = read_value(&bits, pos, w);
        numbers.push(v);
        proof {
            assert(pow2(w as nat) <= pow2(16)) by {
                vstd::arithmetic::power2::lemma2_to64();
                if (w as nat) < 16 {
                    vstd::arithmetic::power2::lemma_pow2_strictly_increases(w as nat, 16);
                }
            }
        }
        pos = pos + w;
        k = k + 1;
    }
    proof {
        let parsed = Seq::new(
            count as nat,
            |i: int| value_of(bits@.subrange(hdr + 2 + i * w, hdr + 2 + (i + 1) * w)) as u16,
        );
        assert(numbers@ =~= parsed);
        assert(spec_decode_bits(bits@) == Ok::<Seq<u16>, CodecError>(numbers@));
    }
    Ok(numbers)
}

/// Round-trip law: decoding an encoded sequence gives the sequence back,
/// for every sequence of in-range numbers short enough for the header.
pub proof fn lemma_round_trip(s: Seq<u16>)
    requires
        s.len() < 1024,
        all_in_range(s),
    ensures
        spec_decode(spec_encode(s)) == Ok::<Seq<u16>, CodecError>(s),
{
    let n = s.len() as int;
    let w = spec_width(s);
    let hb = count_bits(s.len());
    let wc = width_code(w);
    let pl = payload_bits(s, w);
    let core = core_bits(s);
    let stream = stream_bits(s);
    let text = spec_encode(s);
    let hdr: int = if n < 64 {
        7
    } else {
        11
    };

    lemma_bits_of_len(s.len(), 6);
    lemma_bits_of_len(s.len(), 10);
    lemma_payload_len(s, w);
    vstd::arithmetic::mul::lemma_mul_nonnegative(n, w as int);
    assert(hb.len() == hdr);
    assert(core.len() == hdr + 2 + n * w);
    lemma_pad_multiple(core.len());
    assert(stream.len() % 6 == 0);
    vstd::arithmetic::power2::lemma2_to64();

    // Every character of the text is in the alphabet.
    lemma_fundamental_div_mod(stream.len() as int, 6);
    assert forall|k: int| 0 <= k < text.len() implies in_alphabet(#[trigger] text[k]) by {
        assert(6 * k + 6 <= stream.len());
        let chunk = stream.subrange(6 * k, 6 * k + 6);
        lemma_value_of_bound(chunk);
        lemma_alphabet_roundtrip(value_of(chunk));
    }
    assert(spec_decode(text) == spec_decode_bits(unframe(text)));
    lemma_unframe_frame(stream);

    // The header parses back to the length and the width.
    assert(stream[0] == (n >= 64));
    assert(stream.subrange(1, hdr) =~= bits_of(s.len(), (hdr - 1) as nat));
    if n < 64 {
        lemma_value_of_bits_of(s.len(), 6);
    } else {
        lemma_value_of_bits_of(s.len(), 10);
    }
    let count = value_of(stream.subrange(1, hdr)) as int;
    assert(count == n);
    assert(stream[hdr] == wc[0] && stream[hdr + 1] == wc[1]);
    assert(stream.len() >= hdr + 2 + n * w);

    // Each field parses back to its element.
    let parsed = Seq::new(
        count as nat,
        |i: int| value_of(stream.subrange(hdr + 2 + i * w, hdr + 2 + (i + 1) * w)) as u16,
    );
    assert forall|i: int| 0 <= i < n implies parsed[i] == s[i] by {
        vstd::arithmetic::mul::lemma_mul_nonnegative(i, w as int);
        vstd::arithmetic::mul::lemma_mul_inequality(i + 1, n, w as int);
        assert((i + 1) * w == i * w + w) by (nonlinear_arith);
        assert(stream.subrange(hdr + 2 + i * w, hdr + 2 + (i + 1) * w) =~= pl.subrange(
            i * w,
            (i + 1) * w,
        ));
        lemma_payload_index(s, w, i);
        lemma_width_fits(s, i);
        lemma_value_of_bits_of(s[i] as nat, w);
    }
    assert(parsed =~= s);
    assert(spec_decode_bits(stream) == Ok::<Seq<u16>, CodecError>(parsed));
}

/// Header-form law: sequences shorter than 64 use the short header (flag 0,
/// 7 flag-and-count bits, 9 header bits in all); longer ones use the long
/// form (flag 1, 11 flag-and-count bits, 13 in all).
pub proof fn lemma_header_form(s: Seq<u16>)
    requires
        s.len() < 1024,
    ensures
        count_bits(s.len()).len() == (if s.len() < 64 {
            7int
        } else {
            11int
        }),
        count_bits(s.len())[0] == (s.len() >= 64),
        header_bits(s).len() == (if s.len() < 64 {
            9int
        } else {
            13int
        }),
{
    lemma_bits_of_len(s.len(), 6);
    lemma_bits_of_len(s.len(), 10);
}

/// Alphabet-closure law, one direction: every character the encoder emits
/// is in the 64-symbol alphabet.
pub proof fn lemma_alphabet_closure(s: Seq<u16>)
    requires
        s.len() < 1024,
        all_in_range(s),
    ensures
        forall|k: int| 0 <= k < spec_encode(s).len() ==> in_alphabet(#[trigger] spec_encode(s)[k]),
{
    let stream = stream_bits(s);
    let text = spec_encode(s);
    lemma_fundamental_div_mod(stream.len() as int, 6);
    assert forall|k: int| 0 <= k < text.len() implies in_alphabet(#[trigger] text[k]) by {
        assert(6 * k + 6 <= stream.len());
        let chunk = stream.subrange(6 * k, 6 * k + 6);
        lemma_value_of_bound(chunk);
        vstd::arithmetic::power2::lemma2_to64();
        lemma_alphabet_roundtrip(value_of(chunk));
    }
}

/// Alphabet-closure law, other direction: a text with any character outside
/// the alphabet is rejected with `InvalidCharacter`.
pub proof fn lemma_decode_rejects_foreign(text: Seq<char>, k: int)
    requires
        0 <= k < text.len(),
        !in_alphabet(text[k]),
    ensures
        spec_decode(text) == Err::<Seq<u16>, CodecError>(CodecError::InvalidCharacter),
{
}

/// How many decimal digits a number up to 999 prints as.
pub open spec fn decimal_digits(n: u16) -> nat {
    if n < 10 {
        1
    } else if n < 100 {
        2
    } else {
        3
    }
}

/// The length of the naive comma-joined decimal rendering of `s`.
pub open spec fn naive_joined_len(s: Seq<u16>) -> nat
    decreases s.len(),
{
    if s.len() == 0 {
        0
    } else if s.len() == 1 {
        decimal_digits(s[0])
    } else {
        naive_joined_len(s.drop_last()) + 1 + decimal_digits(s.last())
    }
}

/// The denominator of the compression ratio: how long the same numbers are
/// as comma-separated decimal text.
pub fn joined_decimal_len(numbers: &Vec<u16>) -> (r: usize)
    requires
        numbers@.len() < 1024,
        all_in_range(numbers@),
    ensures
        r as nat == naive_joined_len(numbers@),
{
    let ghost s = numbers@;
    let mut total: usize = 0;
    let mut i: usize = 0;
    proof {
        assert(s.take(0) =~= Seq::<u16>::empty());
    }
    while i < numbers.len()
        invariant
            i <= s.len(),
            s == numbers@,
            s.len() < 1024,
            all_in_range(s),
            total as nat == naive_joined_len(s.take(i as int)),
            total <= 4 * i,
        decreases s.len() - i,
    {
        let n = numbers[i];
        let digits: usize = if n < 10 {
            1
        } else if n < 100 {
            2
        } else {
            3
        };
        if i > 0 {
            total = total + 1;
        }
        total = total + digits;
        proof {
            let taken = s.take(i + 1);
            assert(taken.drop_last() =~= s.take(i as int));
            assert(taken.last() == s[i as int]);
        }
        i = i + 1;
    }
    proof {
        assert(s.take(s.len() as int) =~= s);
    }
    total
}

/// Padding-tolerance law: a successful parse never reads past the declared
/// fields, so any bits may follow them without changing the result.
pub proof fn lemma_padding_tolerance(b1: Seq<bool>, b2: Seq<bool>)
    requires
        spec_decode_bits(b1) is Ok,
        b2.len() >= spec_used_bits(b1),
        b2.subrange(0, spec_used_bits(b1)) == b1.subrange(0, spec_used_bits(b1)),
    ensures
        spec_decode_bits(b2) == spec_decode_bits(b1),
{
    let used = spec_used_bits(b1);
    let hdr: int = if b1[0] {
        11
    } else {
        7
    };
    let count = value_of(b1.subrange(1, hdr)) as int;
    let b0 = b1[hdr];
    let bb1 = b1[hdr + 1];
    let w: int = if !b0 && !bb1 {
        4
    } else if !b0 && bb1 {
        7
    } else {
        9
    };
    vstd::arithmetic::mul::lemma_mul_nonnegative(count, w);
    assert(used == hdr + 2 + count * w);
    assert(b1.len() >= used);
    assert forall|j: int| 0 <= j < used implies #[trigger] b2[j] == b1[j] by {
        assert(b2.subrange(0, used)[j] == b1.subrange(0, used)[j]);
    }
    assert(b2.subrange(1, hdr) =~= b1.subrange(1, hdr));
    let parsed1 = Seq::new(
        count as nat,
        |i: int| value_of(b1.subrange(hdr + 2 + i * w, hdr + 2 + (i + 1) * w)) as u16,
    );
    let parsed2 = Seq::new(
        count as nat,
        |i: int| value_of(b2.subrange(hdr + 2 + i * w, hdr + 2 + (i + 1) * w)) as u16,
    );
    assert forall|i: int| 0 <= i < count implies parsed2[i] == parsed1[i] by {
        vstd::arithmetic::mul::lemma_mul_nonnegative(i, w);
        vstd::arithmetic::mul::lemma_mul_inequality(i + 1, count, w);
        assert((i + 1) * w == i * w + w) by (nonlinear_arith);
        assert(b2.subrange(hdr + 2 + i * w, hdr + 2 + (i + 1) * w) =~= b1.subrange(
            hdr + 2 + i * w,
            hdr + 2 + (i + 1) * w,
        ));
    }
    assert(parsed2 =~= parsed1);
}

} // verus!
