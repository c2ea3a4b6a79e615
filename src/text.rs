//! Small string builders: decimal numbers, padding and centring.
use vstd::prelude::*;
use vstd::string::*;

verus! {

/// The character of a decimal digit.
pub open spec fn digit_char(d: nat) -> char {
    if d == 0 {
        '0'
    } else if d == 1 {
        '1'
    } else if d == 2 {
        '2'
    } else if d == 3 {
        '3'
    } else if d == 4 {
        '4'
    } else if d == 5 {
        '5'
    } else if d == 6 {
        '6'
    } else if d == 7 {
        '7'
    } else if d == 8 {
        '8'
    } else {
        '9'
    }
}

/// `n` written in decimal, without sign or leading zeros.
pub open spec fn decimal(n: nat) -> Seq<char>
    decreases n,
{
    if n < 10 {
        seq![digit_char(n)]
    } else {
        decimal(n / 10).push(digit_char(n % 10))
    }
}

/// `k` copies of the character `c`.
pub open spec fn repeat(c: char, k: nat) -> Seq<char> {
    Seq::new(k, |i: int| c)
}

/// `s` right-aligned in a column of `width` characters, padded with spaces.
pub open spec fn pad_left(s: Seq<char>, width: nat) -> Seq<char> {
    if s.len() < width {
        repeat(' ', (width - s.len()) as nat) + s
    } else {
        s
    }
}

/// `s` centred in `width` characters with `fill` on both sides; when the padding
/// is odd, the extra fill character goes to the right.
pub open spec fn center(s: Seq<char>, width: nat, fill: char) -> Seq<char> {
    if s.len() < width {
        let pad = (width - s.len()) as nat;
        repeat(fill, pad / 2) + s + repeat(fill, (pad - pad / 2) as nat)
    } else {
        s
    }
}

fn digit_str(d: usize) -> (r: &'static str)
    requires
        d < 10,
    ensures
        r@ == seq![digit_char(d as nat)],
{
    proof {
        reveal_strlit("0");
        reveal_strlit("1");
        reveal_strlit("2");
        reveal_strlit("3");
        reveal_strlit("4");
        reveal_strlit("5");
        reveal_strlit("6");
        reveal_strlit("7");
        reveal_strlit("8");
        reveal_strlit("9");
    }
    if d == 0 {
        "0"
    } else if d == 1 {
        "1"
    } else if d == 2 {
        "2"
    } else if d == 3 {
        "3"
    } else if d == 4 {
        "4"
    } else if d == 5 {
        "5"
    } else if d == 6 {
        "6"
    } else if d == 7 {
        "7"
    } else if d == 8 {
        "8"
    } else {
        "9"
    }
}

/// Writes `n` in decimal.
pub fn decimal_string(n: usize) -> (r: String)
    ensures
        r@ == decimal(n as nat),
    decreases n,
{
    if n < 10 {
        String::from_str(digit_str(n))
    } else {
        let mut s = decimal_string(n / 10);
        s.append(digit_str(n % 10));
        s
    }
}

/// Appends `k` copies of `c` (given as a one-character string) to `s`.
fn append_repeat(s: &mut String, c: &str, k: usize)
    requires
        c@.len() == 1,
    ensures
        final(s)@ == old(s)@ + repeat(c@[0], k as nat),
{
    let ghost start = s@;
    let mut i: usize = 0;
    while i < k
        invariant
            c@.len() == 1,
            i <= k,
            s@ == start + repeat(c@[0], i as nat),
        decreases k - i,
    {
        s.append(c);
        i = i + 1;
        assert(s@ =~= start + repeat(c@[0], i as nat));
    }
}

/// Right-aligns `s` in a column of `width` characters.
pub fn pad_left_string(s: &str, width: usize) -> (r: String)
    ensures
        r@ == pad_left(s@, width as nat),
{
    let len = s.unicode_len();
    let mut r = String::new();
    if len < width {
        proof {
            reveal_strlit(" ");
        }
        append_repeat(&mut r, " ", width - len);
    }
    r.append(s);
    assert(r@ =~= pad_left(s@, width as nat));
    r
}

/// Centres `s` in `width` characters, filling with `fill`, a one-character string.
pub fn center_string(s: &str, width: usize, fill: &str) -> (r: String)
    requires
        fill@.len() == 1,
    ensures
        r@ == center(s@, width as nat, fill@[0]),
{
    let len = s.unicode_len();
    let mut r = String::new();
    if len < width {
        let pad = width - len;
        append_repeat(&mut r, fill, pad / 2);
        r.append(s);
        append_repeat(&mut r, fill, pad - pad / 2);
    } else {
        r.append(s);
    }
    assert(r@ =~= center(s@, width as nat, fill@[0]));
    r
}

} // verus!
