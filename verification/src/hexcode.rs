//! Lower-case hexadecimal text of byte strings, as `hex::encode` writes it.

use vstd::prelude::*;

verus! {

/// The lower-case hexadecimal digit for a nibble `n` below 16.
pub open spec fn hex_digit(n: u8) -> char {
    if n < 10 {
        (n + 48) as char
    } else {
        (n + 87) as char
    }
}

/// Two digits per byte, high nibble first, bytes in order.
pub open spec fn hex_encoding(bytes: Seq<u8>) -> Seq<char>
    decreases bytes.len(),
{
    if bytes.len() == 0 {
        Seq::empty()
    } else {
        hex_encoding(bytes.drop_last()) + seq![
            hex_digit(bytes.last() / 16),
            hex_digit(bytes.last() % 16),
        ]
    }
}

/// Whether `c` is a lower-case hexadecimal digit.
pub open spec fn is_hex_digit(c: char) -> bool {
    ('0' <= c <= '9') || ('a' <= c <= 'f')
}

fn digit_text(n: u8) -> (s: &'static str)
    requires
        n < 16,
    ensures
        s@ == seq![hex_digit(n)],
{
    match n {
        0u8 => {
            proof {
                reveal_strlit("0");
            }
            "0"
        },
        1u8 => {
            proof {
                reveal_strlit("1");
            }
            "1"
        },
        2u8 => {
            proof {
                reveal_strlit("2");
            }
            "2"
        },
        3u8 => {
            proof {
                reveal_strlit("3");
            }
            "3"
        },
        4u8 => {
            proof {
                reveal_strlit("4");
            }
            "4"
        },
        5u8 => {
            proof {
                reveal_strlit("5");
            }
            "5"
        },
        6u8 => {
            proof {
                reveal_strlit("6");
            }
            "6"
        },
        7u8 => {
            proof {
                reveal_strlit("7");
            }
            "7"
        },
        8u8 => {
            proof {
                reveal_strlit("8");
            }
            "8"
        },
        9u8 => {
            proof {
                reveal_strlit("9");
            }
            "9"
        },
        10u8 => {
            proof {
                reveal_strlit("a");
            }
            "a"
        },
        11u8 => {
            proof {
                reveal_strlit("b");
            }
            "b"
        },
        12u8 => {
            proof {
                reveal_strlit("c");
            }
            "c"
        },
        13u8 => {
            proof {
                reveal_strlit("d");
            }
            "d"
        },
        14u8 => {
            proof {
                reveal_strlit("e");
            }
            "e"
        },
        15u8 => {
            proof {
                reveal_strlit("f");
            }
            "f"
        },
        _ => {
            proof {
                reveal_strlit("f");
            }
            "f"
        },
    }
}

/// The lower-case hexadecimal text of `bytes`.
pub fn encode_hex(bytes: &[u8]) -> (s: String)
    ensures
        s@ == hex_encoding(bytes@),
{
    let mut s = String::new();
    let mut i: usize = 0;
    while i < bytes.len()
        invariant
            i <= bytes@.len(),
            s@ == hex_encoding(bytes@.take(i as int)),
        decreases bytes@.len() - i,
    {
        let b = bytes[i];
        s.append(digit_text(b / 16));
        s.append(digit_text(b % 16));
        proof {
            assert(bytes@.take(i as int + 1).drop_last() =~= bytes@.take(i as int));
        }
        i += 1;
    }
    proof {
        assert(bytes@.take(i as int) =~= bytes@);
    }
    s
}

/// Law: the text has two characters per byte, each a lower-case hexadecimal digit.
pub proof fn lemma_hex_shape(bytes: Seq<u8>)
    ensures
        hex_encoding(bytes).len() == 2 * bytes.len(),
        forall|i: int| 0 <= i < hex_encoding(bytes).len() ==> is_hex_digit(#[trigger] hex_encoding(bytes)[i]),
    decreases bytes.len(),
{
    if bytes.len() > 0 {
        lemma_hex_shape(bytes.drop_last());
        let b = bytes.last();
        assert(is_hex_digit(hex_digit(b / 16)) && is_hex_digit(hex_digit(b % 16)));
        let prev = hex_encoding(bytes.drop_last());
        let tail = seq![hex_digit(b / 16), hex_digit(b % 16)];
        assert forall|i: int| 0 <= i < hex_encoding(bytes).len() implies is_hex_digit(
            #[trigger] hex_encoding(bytes)[i],
        ) by {
            if i < prev.len() {
                assert(hex_encoding(bytes)[i] == prev[i]);
            } else {
                assert(hex_encoding(bytes)[i] == tail[i - prev.len()]);
            }
        }
    }
}

proof fn lemma_hex_digit_injective(x: u8, y: u8)
    requires
        x < 16,
        y < 16,
        hex_digit(x) == hex_digit(y),
    ensures
        x == y,
{
    assert(hex_digit(x) as u32 == if x < 10 { x + 48 } else { x + 87 });
    assert(hex_digit(y) as u32 == if y < 10 { y + 48 } else { y + 87 });
}

/// Law: distinct byte strings have distinct hexadecimal texts, so the text
/// of a digest identifies the digest.
pub proof fn lemma_hex_injective(a: Seq<u8>, b: Seq<u8>)
    requires
        hex_encoding(a) == hex_encoding(b),
    ensures
        a == b,
    decreases a.len(),
{
    lemma_hex_shape(a);
    lemma_hex_shape(b);
    if a.len() > 0 {
        let ha = hex_encoding(a);
        let n = ha.len();
        let x = a.last();
        let y = b.last();
        assert(ha[n - 2] == hex_digit(x / 16) && ha[n - 1] == hex_digit(x % 16));
        assert(ha[n - 2] == hex_digit(y / 16) && ha[n - 1] == hex_digit(y % 16));
        lemma_hex_digit_injective(x / 16, y / 16);
        lemma_hex_digit_injective(x % 16, y % 16);
        assert(ha.take(n - 2) =~= hex_encoding(a.drop_last()));
        assert(ha.take(n - 2) =~= hex_encoding(b.drop_last()));
        lemma_hex_injective(a.drop_last(), b.drop_last());
        assert(x == (x / 16) * 16 + x % 16);
        assert(y == (y / 16) * 16 + y % 16);
        assert(a =~= a.drop_last().push(x));
        assert(b =~= b.drop_last().push(y));
    } else {
        assert(a =~= b);
    }
}

} // verus!
