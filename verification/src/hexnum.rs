use vstd::prelude::*;
use vstd::string::StrSliceExecFns;
use vstd::string::StringExecFns;

verus! {

/// The character for one hexadecimal digit.
pub open spec fn hex_char(d: u64) -> char {
    if d == 0 {
        '0'
    } else if d == 1 {
        '1'
    } else if d == 2 {
        '2'
    } else if d == 3 {
        '3'
    } else if d == 4 {
        '4'
    } else if d == 5 {
        '5'
    } else if d == 6 {
        '6'
    } else if d == 7 {
        '7'
    } else if d == 8 {
        '8'
    } else if d == 9 {
        '9'
    } else if d == 10 {
        'a'
    } else if d == 11 {
        'b'
    } else if d == 12 {
        'c'
    } else if d == 13 {
        'd'
    } else if d == 14 {
        'e'
    } else {
        'f'
    }
}

/// The value of a hexadecimal digit character, if it is one.
pub open spec fn hex_val(c: char) -> Option<u64> {
    if c == '0' {
        Some(0u64)
    } else if c == '1' {
        Some(1u64)
    } else if c == '2' {
        Some(2u64)
    } else if c == '3' {
        Some(3u64)
    } else if c == '4' {
        Some(4u64)
    } else if c == '5' {
        Some(5u64)
    } else if c == '6' {
        Some(6u64)
    } else if c == '7' {
        Some(7u64)
    } else if c == '8' {
        Some(8u64)
    } else if c == '9' {
        Some(9u64)
    } else if c == 'a' {
        Some(10u64)
    } else if c == 'b' {
        Some(11u64)
    } else if c == 'c' {
        Some(12u64)
    } else if c == 'd' {
        Some(13u64)
    } else if c == 'e' {
        Some(14u64)
    } else if c == 'f' {
        Some(15u64)
    } else {
        None
    }
}

/// Reading a digit's character back gives the digit.
pub proof fn lemma_hex_char_val(d: u64)
    requires
        d < 16,
    ensures
        hex_val(hex_char(d)) == Some(d),
{
}

/// One nibble of a number, most significant first.
pub open spec fn nibble(n: u64, i: u64) -> u64
    recommends
        i < 16,
{
    (n >> (((15 - i) * 4) as u64)) & 0xf
}

/// A number written as exactly sixteen hexadecimal digits, most significant
/// digit first.
pub open spec fn hex16(n: u64) -> Seq<char> {
    Seq::new(16, |i: int| hex_char(nibble(n, i as u64)))
}

/// The value of the most significant `i` nibbles of `n`.
pub open spec fn hex_prefix_val(n: u64, i: u64) -> u64
    recommends
        i <= 16,
{
    if i == 0 {
        0u64
    } else {
        n >> (((16 - i) * 4) as u64)
    }
}

/// Folding one more digit into the running value takes in the next nibble.
proof fn lemma_hex_step(n: u64, i: u64)
    requires
        i < 16,
    ensures
        ((hex_prefix_val(n, i) << 4) | nibble(n, i)) == hex_prefix_val(n, (i + 1) as u64),
{
    if i == 0 {
        assert(((0u64 << 4) | ((n >> (((15 - 0) * 4) as u64)) & 0xf)) == n >> (((16 - 1) * 4)
            as u64)) by (bit_vector);
    } else {
        let a: u64 = ((15 - i) * 4) as u64;
        assert(a == (15 - i) * 4 && a <= 56) by {
            assert(1 <= i <= 15);
        }
        let b: u64 = ((16 - i) * 4) as u64;
        assert(b == (16 - i) * 4 && b == a + 4 && b <= 60) by {
            assert(1 <= i <= 15);
        }
        assert(((n >> b) << 4) | ((n >> a) & 0xf) == n >> a) by (bit_vector)
            requires
                a <= 56,
                b == a + 4,
        ;
    }
}

/// All sixteen nibbles together give the number back.
proof fn lemma_hex_prefix_val_full(n: u64)
    ensures
        hex_prefix_val(n, 16) == n,
{
    assert(n >> (((16 - 16) * 4) as u64) == n) by (bit_vector);
}

/// Every nibble is a digit.
proof fn lemma_nibble_bound(n: u64, i: u64)
    requires
        i < 16,
    ensures
        nibble(n, i) < 16,
{
    let a: u64 = ((15 - i) * 4) as u64;
    assert((n >> a) & 0xf < 16) by (bit_vector);
}

/// Folds `k` hexadecimal digit characters starting at `pos` into a number,
/// most significant digit first; `None` when a character is missing or is no
/// digit.
pub open spec fn hex_fold(s: Seq<char>, pos: int, k: nat, acc: u64) -> Option<u64>
    decreases k,
{
    if k == 0 {
        Some(acc)
    } else if pos < 0 || pos >= s.len() {
        None
    } else {
        match hex_val(s[pos]) {
            None => None,
            Some(d) => hex_fold(s, pos + 1, (k - 1) as nat, (acc << 4) | d),
        }
    }
}

/// The number written as sixteen hexadecimal digits starting at `pos`.
pub open spec fn parse_hex16(s: Seq<char>, pos: int) -> Option<u64> {
    hex_fold(s, pos, 16, 0u64)
}

/// Fewer digits left than asked for: the fold fails.
pub proof fn lemma_hex_fold_short(s: Seq<char>, pos: int, k: nat, acc: u64)
    requires
        k > 0,
        pos + k > s.len(),
    ensures
        hex_fold(s, pos, k, acc) == Option::<u64>::None,
    decreases k,
{
    if !(pos < 0 || pos >= s.len()) {
        match hex_val(s[pos]) {
            None => {},
            Some(d) => {
                lemma_hex_fold_short(s, pos + 1, (k - 1) as nat, (acc << 4) | d);
            },
        }
    }
}

/// Where the sixteen characters at `pos` write `n`, the fold reads `n` back.
pub proof fn lemma_parse_hex16_of_hex16(s: Seq<char>, pos: int, n: u64)
    requires
        0 <= pos,
        pos + 16 <= s.len(),
        s.subrange(pos, pos + 16) == hex16(n),
    ensures
        parse_hex16(s, pos) == Some(n),
{
    assert(forall|j: int| 0 <= j < 16 ==> s[pos + j] == #[trigger] hex16(n)[j]) by {
        assert(forall|j: int| 0 <= j < 16 ==> s.subrange(pos, pos + 16)[j] == #[trigger] hex16(
            n,
        )[j]);
    }
    lemma_hex_fold_of_hex16(s, pos, n, 0, 0u64);
    lemma_hex_prefix_val_full(n);
}

proof fn lemma_hex_fold_of_hex16(s: Seq<char>, pos: int, n: u64, i: u64, acc: u64)
    requires
        0 <= pos,
        pos + 16 <= s.len(),
        forall|j: int| 0 <= j < 16 ==> s[pos + j] == #[trigger] hex16(n)[j],
        i <= 16,
        acc == hex_prefix_val(n, i),
    ensures
        hex_fold(s, pos + i, (16 - i) as nat, acc) == Some(hex_prefix_val(n, 16)),
    decreases 16 - i,
{
    if i == 16 {
    } else {
        assert(s[pos + i] == hex16(n)[i as int]);
        assert(hex16(n)[i as int] == hex_char(nibble(n, i)));
        lemma_nibble_bound(n, i);
        lemma_hex_char_val(nibble(n, i));
        lemma_hex_step(n, i);
        lemma_hex_fold_of_hex16(s, pos, n, (i + 1) as u64, (acc << 4) | nibble(n, i));
    }
}

/// A digit character's value names the character back.
proof fn lemma_hex_val_char(c: char, v: u64)
    requires
        hex_val(c) == Some(v),
    ensures
        v < 16,
        hex_char(v) == c,
{
}

/// A successful fold of sixteen digits reads back exactly the number's
/// sixteen-digit form: the fold accepts nothing but what `hex16` writes.
pub proof fn lemma_parse_hex16_sound(s: Seq<char>, pos: int, n: u64)
    requires
        0 <= pos,
        parse_hex16(s, pos) == Some(n),
    ensures
        pos + 16 <= s.len(),
        s.subrange(pos, pos + 16) == hex16(n),
{
    assert((1u64 << 0u64) == 1) by (bit_vector);
    assert(((4 * (16 - 16)) as u64) == 0u64);
    lemma_hex_fold_sound(s, pos, 16, 0u64, n);
    assert forall|j: int| 0 <= j < 16 implies s.subrange(pos, pos + 16)[j] == #[trigger] hex16(
        n,
    )[j] by {
        assert(hex_val(s[pos + j]) == Some((n >> ((4 * (16 - 1 - j)) as u64)) & 0xf));
        assert(nibble(n, j as u64) == (n >> ((4 * (16 - 1 - j)) as u64)) & 0xf);
        lemma_hex_val_char(s[pos + j], nibble(n, j as u64));
    }
    assert(s.subrange(pos, pos + 16) =~= hex16(n));
}

/// The fold succeeds only on digit characters, and the value it returns
/// carries each of them in its own nibble.
proof fn lemma_hex_fold_sound(s: Seq<char>, pos: int, k: u64, acc: u64, n: u64)
    requires
        0 <= pos,
        k <= 16,
        k == 0 || acc < (1u64 << ((4 * (16 - k)) as u64)),
        hex_fold(s, pos, k as nat, acc) == Some(n),
    ensures
        k > 0 ==> pos + k <= s.len(),
        forall|j: int|
            0 <= j < k ==> #[trigger] hex_val(s[pos + j]) == Some(
                (n >> ((4 * (k - 1 - j)) as u64)) & 0xf,
            ),
        n >> ((4 * k) as u64) == if k == 16 {
            0u64
        } else {
            acc
        },
    decreases k,
{
    if k == 0 {
        assert(n >> ((4 * 0) as u64) == n) by (bit_vector);
    } else {
        assert(!(pos < 0 || pos >= s.len()));
        let dopt = hex_val(s[pos]);
        assert(dopt is Some);
        let d = dopt->Some_0;
        lemma_hex_val_char(s[pos], d);
        let acc2: u64 = (acc << 4) | d;
        assert(k - 1 == 0 || acc2 < (1u64 << ((4 * (16 - (k - 1))) as u64))) by (bit_vector)
            requires
                d < 16,
                1 <= k <= 16,
                acc2 == (acc << 4) | d,
                acc < (1u64 << ((4 * (16 - k)) as u64)),
        ;
        lemma_hex_fold_sound(s, pos + 1, (k - 1) as u64, acc2, n);
        assert(n >> ((4 * (k - 1)) as u64) == if k - 1 == 16 {
            0u64
        } else {
            acc2
        });
        assert forall|j: int| 0 <= j < k implies #[trigger] hex_val(s[pos + j]) == Some((n >> ((4
            * (k - 1 - j)) as u64)) & 0xf) by {
            if j == 0 {
                assert((n >> ((4 * (k - 1)) as u64)) & 0xf == d) by (bit_vector)
                    requires
                        d < 16,
                        acc2 == (acc << 4) | d,
                        n >> ((4 * (k - 1)) as u64) == acc2,
                        1 <= k <= 16,
                ;
            } else {
                assert(hex_val(s[(pos + 1) + (j - 1)]) == Some((n >> ((4 * ((k - 1) - 1 - (j
                    - 1))) as u64)) & 0xf));
            }
        }
        assert(n >> ((4 * k) as u64) == if k == 16 {
            0u64
        } else {
            acc
        }) by (bit_vector)
            requires
                d < 16,
                1 <= k <= 16,
                acc2 == (acc << 4) | d,
                acc < (1u64 << ((4 * (16 - k)) as u64)),
                n >> ((4 * (k - 1)) as u64) == acc2,
        ;
    }
}

/// Appends one digit character.
fn push_hex_digit(s: &mut String, d: u64)
    requires
        d < 16,
    ensures
        final(s)@ == old(s)@.push(hex_char(d)),
{
    let ghost s0 = old(s)@;
    if d == 0 {
        s.append("0");
        proof {
            reveal_strlit("0");
            assert(s0 + "0"@ =~= s0.push(hex_char(d)));
        }
    } else if d == 1 {
        s.append("1");
        proof {
            reveal_strlit("1");
            assert(s0 + "1"@ =~= s0.push(hex_char(d)));
        }
    } else if d == 2 {
        s.append("2");
        proof {
            reveal_strlit("2");
            assert(s0 + "2"@ =~= s0.push(hex_char(d)));
        }
    } else if d == 3 {
        s.append("3");
        proof {
            reveal_strlit("3");
            assert(s0 + "3"@ =~= s0.push(hex_char(d)));
        }
    } else if d == 4 {
        s.append("4");
        proof {
            reveal_strlit("4");
            assert(s0 + "4"@ =~= s0.push(hex_char(d)));
        }
    } else if d == 5 {
        s.append("5");
        proof {
            reveal_strlit("5");
            assert(s0 + "5"@ =~= s0.push(hex_char(d)));
        }
    } else if d == 6 {
        s.append("6");
        proof {
            reveal_strlit("6");
            assert(s0 + "6"@ =~= s0.push(hex_char(d)));
        }
    } else if d == 7 {
        s.append("7");
        proof {
            reveal_strlit("7");
            assert(s0 + "7"@ =~= s0.push(hex_char(d)));
        }
    } else if d == 8 {
        s.append("8");
        proof {
            reveal_strlit("8");
            assert(s0 + "8"@ =~= s0.push(hex_char(d)));
        }
    } else if d == 9 {
        s.append("9");
        proof {
            reveal_strlit("9");
            assert(s0 + "9"@ =~= s0.push(hex_char(d)));
        }
    } else if d == 10 {
        s.append("a");
        proof {
            reveal_strlit("a");
            assert(s0 + "a"@ =~= s0.push(hex_char(d)));
        }
    } else if d == 11 {
        s.append("b");
        proof {
            reveal_strlit("b");
            assert(s0 + "b"@ =~= s0.push(hex_char(d)));
        }
    } else if d == 12 {
        s.append("c");
        proof {
            reveal_strlit("c");
            assert(s0 + "c"@ =~= s0.push(hex_char(d)));
        }
    } else if d == 13 {
        s.append("d");
        proof {
            reveal_strlit("d");
            assert(s0 + "d"@ =~= s0.push(hex_char(d)));
        }
    } else if d == 14 {
        s.append("e");
        proof {
            reveal_strlit("e");
            assert(s0 + "e"@ =~= s0.push(hex_char(d)));
        }
    } else {
        s.append("f");
        proof {
            reveal_strlit("f");
            assert(s0 + "f"@ =~= s0.push(hex_char(d)));
        }
    }
}

/// Appends a number as exactly sixteen hexadecimal digits, most significant
/// first.
pub fn push_hex16(s: &mut String, n: u64)
    ensures
        final(s)@ == old(s)@ + hex16(n),
{
    let ghost s0 = old(s)@;
    let mut i: u64 = 0;
    proof {
        assert(s0 + hex16(n).take(0int) =~= s0);
    }
    while i < 16
        invariant
            i <= 16,
            s@ == s0 + hex16(n).take(i as int),
        decreases 16 - i,
    {
        let d = (n >> ((15 - i) * 4)) & 0xf;
        proof {
            assert(d == nibble(n, i));
            lemma_nibble_bound(n, i);
        }
        let ghost before = s@;
        push_hex_digit(s, d);
        proof {
            assert(hex16(n).take(i as int + 1).drop_last() =~= hex16(n).take(i as int));
            assert(s@ =~= s0 + hex16(n).take(i as int + 1));
        }
        i = i + 1;
    }
    proof {
        assert(hex16(n).take(16int) =~= hex16(n));
    }
}

/// The value of one digit character, if it is one.
fn hex_digit_val(c: char) -> (r: Option<u64>)
    ensures
        r == hex_val(c),
{
    match c {
        '0' => Some(0),
        '1' => Some(1),
        '2' => Some(2),
        '3' => Some(3),
        '4' => Some(4),
        '5' => Some(5),
        '6' => Some(6),
        '7' => Some(7),
        '8' => Some(8),
        '9' => Some(9),
        'a' => Some(10),
        'b' => Some(11),
        'c' => Some(12),
        'd' => Some(13),
        'e' => Some(14),
        'f' => Some(15),
        _ => None,
    }
}

/// Reads the sixteen-digit number starting at `pos`.
pub fn read_hex16(s: &str, pos: usize) -> (r: Option<u64>)
    requires
        pos + 16 <= s@.len(),
        pos + 16 <= usize::MAX,
    ensures
        r == parse_hex16(s@, pos as int),
{
    let mut acc: u64 = 0;
    let mut i: usize = 0;
    while i < 16
        invariant
            i <= 16,
            pos + 16 <= s@.len(),
            pos + 16 <= usize::MAX,
            parse_hex16(s@, pos as int) == hex_fold(s@, pos + i, (16 - i) as nat, acc),
        decreases 16 - i,
    {
        let c = s.get_char(pos + i);
        match hex_digit_val(c) {
            Some(d) => {
                acc = (acc << 4) | d;
            },
            None => {
                return None;
            },
        }
        i = i + 1;
    }
    Some(acc)
}

} // verus!
