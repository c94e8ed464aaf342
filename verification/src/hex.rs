//! Lowercase hexadecimal rendering of byte strings.
//!
//! Cache keys and link tags are printed as hex; the encoder is verified
//! against the character-level specification `hex_of`.

use vstd::prelude::*;

verus! {

/// The lowercase hex digit for a nibble value.
pub open spec fn hex_char(n: u8) -> char {
    if n == 0 {
        '0'
    } else if n == 1 {
        '1'
    } else if n == 2 {
        '2'
    } else if n == 3 {
        '3'
    } else if n == 4 {
        '4'
    } else if n == 5 {
        '5'
    } else if n == 6 {
        '6'
    } else if n == 7 {
        '7'
    } else if n == 8 {
        '8'
    } else if n == 9 {
        '9'
    } else if n == 10 {
        'a'
    } else if n == 11 {
        'b'
    } else if n == 12 {
        'c'
    } else if n == 13 {
        'd'
    } else if n == 14 {
        'e'
    } else {
        'f'
    }
}

/// The lowercase hex rendering of a byte string: two digits per byte,
/// high nibble first.
pub open spec fn hex_of(s: Seq<u8>) -> Seq<char>
    decreases s.len(),
{
    if s.len() == 0 {
        Seq::empty()
    } else {
        hex_of(s.drop_last()) + seq![hex_char(s.last() >> 4), hex_char(s.last() & 15)]
    }
}

/// One lowercase hex digit as a string slice.
pub(crate) fn hex_digit_str(n: u8) -> (r: &'static str)
    requires
        n < 16,
    ensures
        r@.len() == 1,
        r@[0] == hex_char(n),
{
    proof {
        reveal_strlit("0");
        reveal_strlit("1");
        reveal_strlit("2");
        reveal_strlit("3");
        reveal_strlit("4");
        reveal_strlit("5");
        reveal_strlit("6");
        reveal_strlit("7");
        reveal_strlit("8");
        reveal_strlit("9");
        reveal_strlit("a");
        reveal_strlit("b");
        reveal_strlit("c");
        reveal_strlit("d");
        reveal_strlit("e");
        reveal_strlit("f");
    }
    match n {
        0 => "0",
        1 => "1",
        2 => "2",
        3 => "3",
        4 => "4",
        5 => "5",
        6 => "6",
        7 => "7",
        8 => "8",
        9 => "9",
        10 => "a",
        11 => "b",
        12 => "c",
        13 => "d",
        14 => "e",
        _ => "f",
    }
}

/// Renders `data` as lowercase hex, two digits per byte.
pub fn hex_encode(data: &[u8]) -> (r: String)
    ensures
        r@ == hex_of(data@),
        r@.len() == 2 * data@.len(),
{
    let mut out = String::new();
    let n = data.len();
    for i in 0..n
        invariant
            n == data@.len(),
            out@ == hex_of(data@.subrange(0, i as int)),
            out@.len() == 2 * i,
    {
        let b = data[i];
        assert(b >> 4 < 16 && b & 15 < 16) by (bit_vector);
        let hi = b >> 4;
        let lo = b & 15;
        out.append(hex_digit_str(hi));
        out.append(hex_digit_str(lo));
        proof {
            let pre = data@.subrange(0, i + 1);
            assert(pre.drop_last() =~= data@.subrange(0, i as int));
            assert(out@ =~= hex_of(pre));
        }
    }
    proof {
        assert(data@.subrange(0, n as int) =~= data@);
    }
    out
}

/// Whether `c` is a hex digit, either case.
pub open spec fn is_hex_digit(c: char) -> bool {
    (48 <= c as int <= 57) || (97 <= c as int <= 102) || (65 <= c as int <= 70)
}

/// The numeric value of a hex digit.
pub open spec fn hex_val(c: char) -> nat {
    if 48 <= c as int <= 57 {
        (c as int - 48) as nat
    } else if 97 <= c as int <= 102 {
        (c as int - 87) as nat
    } else {
        (c as int - 55) as nat
    }
}

/// Whether every character is a hex digit.
pub open spec fn all_hex(s: Seq<char>) -> bool {
    forall|i: int| 0 <= i < s.len() ==> is_hex_digit(#[trigger] s[i])
}

/// The bytes spelled by an even-length hex string.
pub open spec fn hex_bytes(s: Seq<char>) -> Seq<u8>
    decreases s.len(),
{
    if s.len() < 2 {
        Seq::empty()
    } else {
        hex_bytes(s.drop_last().drop_last()).push(
            (hex_val(s[s.len() - 2]) * 16 + hex_val(s[s.len() - 1])) as u8,
        )
    }
}

/// The numeric value of a hex digit character.
fn hex_val_exec(c: char) -> (r: u8)
    requires
        is_hex_digit(c),
    ensures
        r as nat == hex_val(c),
        r < 16,
{
    let cu = c as u32;
    if cu >= 48 && cu <= 57 {
        (cu - 48) as u8
    } else if cu >= 97 && cu <= 102 {
        (cu - 87) as u8
    } else {
        (cu - 55) as u8
    }
}

/// Reads bytes back out of a hex string: the spelled bytes of an
/// even-length string of hex digits, and nothing otherwise.
pub fn hex_decode(s: &str) -> (r: Option<Vec<u8>>)
    ensures
        match r {
            Some(b) => {
                &&& s@.len() % 2 == 0
                &&& all_hex(s@)
                &&& b@ == hex_bytes(s@)
                &&& b@.len() * 2 == s@.len()
            },
            None => !(s@.len() % 2 == 0 && all_hex(s@)),
        },
{
    let n = s.unicode_len();
    if n % 2 != 0 {
        return None;
    }
    let mut out: Vec<u8> = Vec::new();
    let mut i: usize = 0;
    while i < n
        invariant
            n == s@.len(),
            n % 2 == 0,
            i % 2 == 0,
            0 <= i <= n,
            all_hex(s@.subrange(0, i as int)),
            out@ == hex_bytes(s@.subrange(0, i as int)),
            out@.len() * 2 == i,
        decreases n - i,
    {
        let c1 = s.get_char(i);
        let c2 = s.get_char(i + 1);
        let cu1 = c1 as u32;
        let cu2 = c2 as u32;
        let ok1 = (cu1 >= 48 && cu1 <= 57) || (cu1 >= 97 && cu1 <= 102) || (cu1 >= 65 && cu1
            <= 70);
        let ok2 = (cu2 >= 48 && cu2 <= 57) || (cu2 >= 97 && cu2 <= 102) || (cu2 >= 65 && cu2
            <= 70);
        if !ok1 || !ok2 {
            proof {
                assert(s@.subrange(0, n as int) =~= s@);
                if !ok1 {
                    assert(!is_hex_digit(s@[i as int]));
                } else {
                    assert(!is_hex_digit(s@[i + 1]));
                }
            }
            return None;
        }
        let hi = hex_val_exec(c1);
        let lo = hex_val_exec(c2);
        out.push(hi * 16 + lo);
        proof {
            let w = s@.subrange(0, i + 2);
            assert(w.drop_last() =~= s@.subrange(0, i + 1));
            assert(w.drop_last().drop_last() =~= s@.subrange(0, i as int));
            assert(w[w.len() - 2] == s@[i as int]);
            assert(w[w.len() - 1] == s@[i + 1]);
            assert(out@ =~= hex_bytes(w));
            assert forall|j: int| 0 <= j < i + 2 implies is_hex_digit(#[trigger] w[j]) by {
                if j < i {
                    assert(w[j] == s@.subrange(0, i as int)[j]);
                }
            }
            assert(all_hex(s@.subrange(0, i + 2)));
        }
        i = i + 2;
    }
    proof {
        assert(s@.subrange(0, n as int) =~= s@);
    }
    Some(out)
}

/// Law: decoding reads the encoding back. The hex form of any byte
/// string is even-length, all hex digits, and spells the original bytes.
pub proof fn lemma_hex_roundtrip(b: Seq<u8>)
    ensures
        hex_of(b).len() == 2 * b.len(),
        all_hex(hex_of(b)),
        hex_bytes(hex_of(b)) == b,
    decreases b.len(),
{
    if b.len() == 0 {
        assert(hex_bytes(hex_of(b)) =~= b);
    } else {
        let d = b.drop_last();
        lemma_hex_roundtrip(d);
        let x = b.last();
        assert(x >> 4 < 16 && (x & 15) < 16 && (x >> 4) * 16 + (x & 15) == x) by (bit_vector);
        let hi = x >> 4;
        let lo = x & 15;
        lemma_hex_digit_value(hi);
        lemma_hex_digit_value(lo);
        let h = hex_of(b);
        assert(h == hex_of(d) + seq![hex_char(hi), hex_char(lo)]);
        assert(h.len() == 2 * b.len());
        assert forall|i: int| 0 <= i < h.len() implies is_hex_digit(#[trigger] h[i]) by {
            if i < hex_of(d).len() {
                assert(h[i] == hex_of(d)[i]);
            } else if i == h.len() - 2 {
                assert(h[i] == hex_char(hi));
            } else {
                assert(h[i] == hex_char(lo));
            }
        }
        assert(h.drop_last().drop_last() =~= hex_of(d));
        assert(h[h.len() - 2] == hex_char(hi));
        assert(h[h.len() - 1] == hex_char(lo));
        assert(hex_bytes(h) == hex_bytes(hex_of(d)).push(
            (hex_val(hex_char(hi)) * 16 + hex_val(hex_char(lo))) as u8,
        ));
        assert(hex_bytes(h) =~= b);
    }
}

/// The hex digit of a nibble reads back as that nibble.
proof fn lemma_hex_digit_value(n: u8)
    requires
        n < 16,
    ensures
        is_hex_digit(hex_char(n)),
        hex_val(hex_char(n)) == n as nat,
{
}

} // verus!
