//! The data half of the report: canonical, deterministic text for what the
//! report shows per line — the address of a bucket in `0x` hex. Column
//! widths and coloring are the presentation layer's business; the text
//! rendered here is pinned, so identical rankings give identical report
//! text.

use vstd::prelude::*;
use vstd::string::StringExecFns;

verus! {

/// The lowercase hexadecimal digit of a value below sixteen.
pub open spec fn hex_char(d: u8) -> char
    recommends
        d < 16,
{
    if d == 0 {
        '0'
    } else if d == 1 {
        '1'
    } else if d == 2 {
        '2'
    } else if d == 3 {
        '3'
    } else if d == 4 {
        '4'
    } else if d == 5 {
        '5'
    } else if d == 6 {
        '6'
    } else if d == 7 {
        '7'
    } else if d == 8 {
        '8'
    } else if d == 9 {
        '9'
    } else if d == 10 {
        'a'
    } else if d == 11 {
        'b'
    } else if d == 12 {
        'c'
    } else if d == 13 {
        'd'
    } else if d == 14 {
        'e'
    } else {
        'f'
    }
}

/// The hex digits of a byte string, two per byte, high nibble first.
pub open spec fn hex_digits(s: Seq<u8>) -> Seq<char>
    decreases s.len(),
{
    if s.len() == 0 {
        Seq::empty()
    } else {
        hex_digits(s.drop_last()) + seq![hex_char(s.last() / 16), hex_char(s.last() % 16)]
    }
}

/// The canonical text of an address: `0x` and its hex digits.
pub open spec fn address_text(s: Seq<u8>) -> Seq<char> {
    "0x"@ + hex_digits(s)
}

/// One hex digit as text.
fn hex_str(d: u8) -> (r: &'static str)
    requires
        d < 16,
    ensures
        r@ == seq![hex_char(d)],
{
    proof {
        reveal_strlit("0");
        reveal_strlit("1");
        reveal_strlit("2");
        reveal_strlit("3");
        reveal_strlit("4");
        reveal_strlit("5");
        reveal_strlit("6");
        reveal_strlit("7");
        reveal_strlit("8");
        reveal_strlit("9");
        reveal_strlit("a");
        reveal_strlit("b");
        reveal_strlit("c");
        reveal_strlit("d");
        reveal_strlit("e");
        reveal_strlit("f");
    }
    if d == 0 {
        "0"
    } else if d == 1 {
        "1"
    } else if d == 2 {
        "2"
    } else if d == 3 {
        "3"
    } else if d == 4 {
        "4"
    } else if d == 5 {
        "5"
    } else if d == 6 {
        "6"
    } else if d == 7 {
        "7"
    } else if d == 8 {
        "8"
    } else if d == 9 {
        "9"
    } else if d == 10 {
        "a"
    } else if d == 11 {
        "b"
    } else if d == 12 {
        "c"
    } else if d == 13 {
        "d"
    } else if d == 14 {
        "e"
    } else {
        "f"
    }
}

/// Renders an address as `0x` and two lowercase hex digits per byte.
pub fn render_address_hex(v: &Vec<u8>) -> (r: String)
    ensures
        r@ == address_text(v@),
{
    let mut s = "0x".to_owned();
    let n = v.len();
    let mut i: usize = 0;
    proof {
        assert(hex_digits(v@.take(0)) =~= Seq::<char>::empty());
        assert(s@ =~= "0x"@ + hex_digits(v@.take(0)));
    }
    while i < n
        invariant
            0 <= i <= n,
            n == v@.len(),
            s@ == "0x"@ + hex_digits(v@.take(i as int)),
        decreases n - i,
    {
        let d = v[i];
        s.append(hex_str(d / 16));
        s.append(hex_str(d % 16));
        proof {
            let t = v@.take(i as int + 1);
            assert(t.drop_last() =~= v@.take(i as int));
            assert(t.last() == v@[i as int]);
            assert(s@ =~= "0x"@ + hex_digits(t));
        }
        i += 1;
    }
    proof {
        assert(v@.take(n as int) =~= v@);
    }
    s
}

} // verus!
