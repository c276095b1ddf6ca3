use vstd::prelude::*;
use vstd::string::StringExecFns;

verus! {

/// The character for a decimal digit.
pub open spec fn digit10(d: int) -> char {
    if d == 0 {
        '0'
    } else if d == 1 {
        '1'
    } else if d == 2 {
        '2'
    } else if d == 3 {
        '3'
    } else if d == 4 {
        '4'
    } else if d == 5 {
        '5'
    } else if d == 6 {
        '6'
    } else if d == 7 {
        '7'
    } else if d == 8 {
        '8'
    } else {
        '9'
    }
}

/// The decimal digits of `n`, most significant first.
pub open spec fn dec_digits(n: nat) -> Seq<char>
    decreases n,
{
    if n < 10 {
        seq![digit10(n as int)]
    } else {
        dec_digits(n / 10) + seq![digit10((n % 10) as int)]
    }
}

/// Digit characters for a most-significant-first digit-value sequence.
pub open spec fn chars_of(ds: Seq<u8>) -> Seq<char> {
    Seq::new(ds.len(), |k: int| digit10(ds[k] as int))
}

/// Digit characters for a least-significant-first digit-value
/// sequence, read backwards.
pub open spec fn rev_chars(ds: Seq<u8>) -> Seq<char> {
    Seq::new(ds.len(), |k: int| digit10(ds[ds.len() - 1 - k] as int))
}

/// A digit string with `,` inserted between three-digit groups,
/// counted from the right.
pub open spec fn grouped(s: Seq<char>) -> Seq<char>
    decreases s.len(),
{
    if s.len() <= 3 {
        s
    } else {
        grouped(s.take(s.len() - 3)) + seq![','] + s.skip(s.len() - 3)
    }
}

/// A pair of unsigned board coordinates.
#[derive(Clone, Copy, PartialEq, Eq, Structural, Debug)]
pub struct VecU2 {
    pub x: usize,
    pub y: usize,
}

impl VecU2 {
    pub fn new(x: usize, y: usize) -> (r: Self)
        ensures
            r == (VecU2 { x, y }),
    {
        VecU2 { x, y }
    }

    pub fn as_tuple(&self) -> (r: (usize, usize))
        ensures
            r == (self.x, self.y),
    {
        (self.x, self.y)
    }
}

/// The one-character string for a decimal digit.
fn digit_str10(d: u8) -> (r: &'static str)
    requires
        d < 10,
    ensures
        r@ =~= seq![digit10(d as int)],
{
    proof {
        reveal_strlit("0");
        reveal_strlit("1");
        reveal_strlit("2");
        reveal_strlit("3");
        reveal_strlit("4");
        reveal_strlit("5");
        reveal_strlit("6");
        reveal_strlit("7");
        reveal_strlit("8");
        reveal_strlit("9");
    }
    match d {
        0 => "0",
        1 => "1",
        2 => "2",
        3 => "3",
        4 => "4",
        5 => "5",
        6 => "6",
        7 => "7",
        8 => "8",
        _ => "9",
    }
}

/// The grouped text of the first `len` digits of a
/// most-significant-first digit vector.
fn group_digits(digs: &Vec<u8>, len: usize) -> (r: String)
    requires
        len <= digs@.len(),
        forall|k: int| 0 <= k < digs@.len() ==> digs@[k] < 10,
    ensures
        r@ == grouped(chars_of(digs@.take(len as int))),
    decreases len,
{
    if len <= 3 {
        let mut out = String::new();
        let mut k: usize = 0;
        proof {
            assert(out@ =~= chars_of(digs@.take(len as int)).take(0));
        }
        while k < len
            invariant
                k <= len,
                len <= digs@.len(),
                forall|q: int| 0 <= q < digs@.len() ==> digs@[q] < 10,
                out@ == chars_of(digs@.take(len as int)).take(k as int),
            decreases len - k,
        {
            out.append(digit_str10(digs[k]));
            proof {
                assert(out@ =~= chars_of(digs@.take(len as int)).take(k as int + 1));
            }
            k += 1;
        }
        proof {
            assert(out@ =~= chars_of(digs@.take(len as int)));
        }
        out
    } else {
        let mut out = group_digits(digs, len - 3);
        proof {
            assert(digs@.take(len as int).take(len - 3) =~= digs@.take(len - 3));
            assert(chars_of(digs@.take(len as int)).take(len - 3) =~= chars_of(
                digs@.take(len - 3),
            ));
        }
        out.append(",");
        let ghost mid = out@;
        let mut k: usize = len - 3;
        proof {
            reveal_strlit(",");
            assert(mid =~= grouped(chars_of(digs@.take(len - 3))) + seq![',']);
            assert(out@ =~= mid + chars_of(digs@.take(len as int)).skip(len - 3).take(0));
        }
        while k < len
            invariant
                3 < len,
                len - 3 <= k <= len,
                len <= digs@.len(),
                forall|q: int| 0 <= q < digs@.len() ==> digs@[q] < 10,
                out@ == mid + chars_of(digs@.take(len as int)).skip(len - 3).take(
                    k as int - (len - 3),
                ),
            decreases len - k,
        {
            out.append(digit_str10(digs[k]));
            proof {
                let s = chars_of(digs@.take(len as int));
                let t0 = s.skip(len - 3);
                let p = k as int - (len - 3);
                assert(digs@.take(len as int).len() == len);
                assert(s.len() == len);
                assert(t0.len() == 3);
                assert(digs@.take(len as int)[k as int] == digs@[k as int]);
                assert(s[k as int] == digit10(digs@[k as int] as int));
                assert(t0[p] == s[k as int]);
                assert(t0.take(p + 1) =~= t0.take(p) + seq![t0[p]]);
                assert(out@ =~= mid + t0.take(p + 1));
            }
            k += 1;
        }
        proof {
            let s = chars_of(digs@.take(len as int));
            assert(s.skip(len - 3).take(k as int - (len - 3)) =~= s.skip(len - 3));
            assert(grouped(s) == grouped(s.take(len - 3)) + seq![','] + s.skip(len - 3));
            assert(out@ =~= grouped(s));
        }
        out
    }
}

/// Formats a number in decimal with `,` between three-digit groups,
/// counted from the right.
pub fn fmt_num(num: usize) -> (r: String)
    ensures
        r@ == grouped(dec_digits(num as nat)),
{
    let mut digs: Vec<u8> = Vec::new();
    let mut n = num;
    loop
        invariant_except_break
            n > 0 ==> dec_digits(num as nat) == dec_digits(n as nat) + rev_chars(digs@),
            n == 0 ==> digs@.len() == 0 && num == 0,
            forall|k: int| 0 <= k < digs@.len() ==> digs@[k] < 10,
        ensures
            dec_digits(num as nat) == rev_chars(digs@),
            forall|k: int| 0 <= k < digs@.len() ==> digs@[k] < 10,
        decreases n + if digs@.len() == 0 {
            1int
        } else {
            0
        },
    {
        let ghost before = digs@;
        let d = (n % 10) as u8;
        digs.push(d);
        proof {
            if n >= 10 {
                assert(dec_digits(n as nat) == dec_digits((n as nat) / 10) + seq![
                    digit10((n % 10) as int),
                ]);
                assert(dec_digits((n as nat) / 10) + rev_chars(digs@) =~= dec_digits(n as nat)
                    + rev_chars(before));
            } else {
                assert(dec_digits(n as nat) =~= seq![digit10(n as int)]);
                assert(rev_chars(digs@) =~= dec_digits(n as nat) + rev_chars(before));
            }
        }
        n = n / 10;
        if n == 0 {
            break;
        }
    }

    let count = digs.len();
    let mut msb: Vec<u8> = Vec::new();
    let mut k: usize = 0;
    while k < count
        invariant
            k <= count,
            count == digs@.len(),
            msb@.len() == k,
            forall|q: int| 0 <= q < digs@.len() ==> digs@[q] < 10,
            forall|q: int| 0 <= q < k ==> msb@[q] == digs@[count - 1 - q],
        decreases count - k,
    {
        msb.push(digs[count - 1 - k]);
        k += 1;
    }
    proof {
        assert(msb@.take(count as int) =~= msb@);
        assert(chars_of(msb@) =~= rev_chars(digs@));
    }
    group_digits(&msb, count)
}

/// Converts a flat row-major cell index into `(x, y)` coordinates for a
/// grid of the given width.
pub fn i_to_xy(width: usize, i: usize) -> (r: (usize, usize))
    requires
        width > 0,
    ensures
        r.0 == i % width,
        r.1 == i / width,
        r.0 < width,
{
    (i % width, i / width)
}

} // verus!
