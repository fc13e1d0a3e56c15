//! The canonical textual form of a function selector: `0x` followed by two
//! lowercase hex digits per byte.

use vstd::prelude::*;
use vstd::string::StringExecFns;

verus! {

/// The lowercase hex digit for a value below sixteen.
pub open spec fn hex_digit(v: int) -> char {
    if v == 0 {
        '0'
    } else if v == 1 {
        '1'
    } else if v == 2 {
        '2'
    } else if v == 3 {
        '3'
    } else if v == 4 {
        '4'
    } else if v == 5 {
        '5'
    } else if v == 6 {
        '6'
    } else if v == 7 {
        '7'
    } else if v == 8 {
        '8'
    } else if v == 9 {
        '9'
    } else if v == 10 {
        'a'
    } else if v == 11 {
        'b'
    } else if v == 12 {
        'c'
    } else if v == 13 {
        'd'
    } else if v == 14 {
        'e'
    } else {
        'f'
    }
}

/// The two hex digits of one byte, high nibble first.
pub open spec fn byte_hex(b: u8) -> Seq<char> {
    seq![hex_digit(b as int / 16), hex_digit(b as int % 16)]
}

/// The hex digits of a byte string, in byte order.
pub open spec fn bytes_hex(s: Seq<u8>) -> Seq<char>
    decreases s.len(),
{
    if s.len() == 0 {
        Seq::empty()
    } else {
        byte_hex(s[0]) + bytes_hex(s.drop_first())
    }
}

/// The canonical `0x`-prefixed lowercase hex form of a byte string.
pub open spec fn selector_hex(s: Seq<u8>) -> Seq<char> {
    seq!['0', 'x'] + bytes_hex(s)
}

proof fn lemma_bytes_hex_push(s: Seq<u8>, b: u8)
    ensures
        bytes_hex(s.push(b)) == bytes_hex(s) + byte_hex(b),
    decreases s.len(),
{
    if s.len() == 0 {
        reveal_with_fuel(bytes_hex, 2);
        assert(s.push(b)[0] == b);
        assert(s.push(b).drop_first() =~= Seq::<u8>::empty());
        assert(bytes_hex(s.push(b)) =~= byte_hex(b));
        assert(bytes_hex(s) + byte_hex(b) =~= byte_hex(b));
    } else {
        assert(s.push(b)[0] == s[0]);
        assert(s.push(b).drop_first() =~= s.drop_first().push(b));
        lemma_bytes_hex_push(s.drop_first(), b);
        assert(bytes_hex(s.push(b)) == byte_hex(s[0]) + (bytes_hex(s.drop_first()) + byte_hex(
            b,
        )));
        assert(byte_hex(s[0]) + (bytes_hex(s.drop_first()) + byte_hex(b)) =~= (byte_hex(s[0])
            + bytes_hex(s.drop_first())) + byte_hex(b));
    }
}

/// The one-character text of the hex digit for `v`.
fn hex_digit_str(v: u8) -> (r: &'static str)
    requires
        v < 16,
    ensures
        r@ == seq![hex_digit(v as int)],
{
    proof {
        reveal_strlit("0");
        reveal_strlit("1");
        reveal_strlit("2");
        reveal_strlit("3");
        reveal_strlit("4");
        reveal_strlit("5");
        reveal_strlit("6");
        reveal_strlit("7");
        reveal_strlit("8");
        reveal_strlit("9");
        reveal_strlit("a");
        reveal_strlit("b");
        reveal_strlit("c");
        reveal_strlit("d");
        reveal_strlit("e");
        reveal_strlit("f");
        assert("0"@ =~= seq!['0']);
        assert("1"@ =~= seq!['1']);
        assert("2"@ =~= seq!['2']);
        assert("3"@ =~= seq!['3']);
        assert("4"@ =~= seq!['4']);
        assert("5"@ =~= seq!['5']);
        assert("6"@ =~= seq!['6']);
        assert("7"@ =~= seq!['7']);
        assert("8"@ =~= seq!['8']);
        assert("9"@ =~= seq!['9']);
        assert("a"@ =~= seq!['a']);
        assert("b"@ =~= seq!['b']);
        assert("c"@ =~= seq!['c']);
        assert("d"@ =~= seq!['d']);
        assert("e"@ =~= seq!['e']);
        assert("f"@ =~= seq!['f']);
    }
    match v {
        0 => "0",
        1 => "1",
        2 => "2",
        3 => "3",
        4 => "4",
        5 => "5",
        6 => "6",
        7 => "7",
        8 => "8",
        9 => "9",
        10 => "a",
        11 => "b",
        12 => "c",
        13 => "d",
        14 => "e",
        _ => "f",
    }
}

/// The `0x`-prefixed lowercase hex text of a selector's bytes, two digits
/// per byte.
pub fn selector_to_hex(selector: &Vec<u8>) -> (r: String)
    ensures
        r@ == selector_hex(selector@),
{
    let mut s = String::from_str("0x");
    proof {
        reveal_strlit("0x");
        assert("0x"@ =~= seq!['0', 'x']);
        assert(bytes_hex(selector@.subrange(0, 0)) =~= Seq::<char>::empty());
        assert(s@ =~= seq!['0', 'x'] + bytes_hex(selector@.subrange(0, 0)));
    }
    let n = selector.len();
    let mut i: usize = 0;
    while i < n
        invariant
            n == selector@.len(),
            i <= n,
            s@ == seq!['0', 'x'] + bytes_hex(selector@.subrange(0, i as int)),
        decreases n - i,
    {
        let b = selector[i];
        let hi = b / 16;
        let lo = b % 16;
        s.append(hex_digit_str(hi));
        s.append(hex_digit_str(lo));
        proof {
            let sub = selector@.subrange(0, i as int);
            assert(selector@.subrange(0, i + 1) =~= sub.push(b));
            lemma_bytes_hex_push(sub, b);
            assert(seq![hex_digit(hi as int)] + seq![hex_digit(lo as int)] =~= byte_hex(b));
            assert(s@ =~= seq!['0', 'x'] + bytes_hex(selector@.subrange(0, i + 1)));
        }
        i += 1;
    }
    proof {
        assert(selector@.subrange(0, n as int) =~= selector@);
    }
    s
}

} // verus!
