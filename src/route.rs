//! Finding the default IPv4 gateway in the lines of a route table (as in
//! `/proc/net/route`): after a header line, each line names an interface,
//! a destination and a gateway, the two addresses in hexadecimal.

use vstd::prelude::*;

use crate::parse::{digits_of, split_words, views, words};

verus! {

/// The value of a hexadecimal digit, either case.
pub open spec fn hex_digit(c: char) -> Option<nat> {
    let u = c as u32;
    if 48 <= u <= 57 {
        Some((u - 48) as nat)
    } else if 97 <= u <= 102 {
        Some((u - 87) as nat)
    } else if 65 <= u <= 70 {
        Some((u - 55) as nat)
    } else {
        None
    }
}

pub open spec fn hex_digits(d: Seq<char>) -> bool {
    forall|i: int| 0 <= i < d.len() ==> (#[trigger] hex_digit(d[i])).is_some()
}

/// The value of a string of hexadecimal digits.
pub open spec fn hex_value(d: Seq<char>) -> nat
    decreases d.len(),
{
    if d.len() == 0 {
        0
    } else {
        hex_value(d.drop_last()) * 16 + hex_digit(d.last()).unwrap_or(0)
    }
}

/// The texts `u32::from_str_radix(_, 16)` accepts: an optional `+`, then at
/// least one hexadecimal digit, with a value that fits.
pub open spec fn hex_number_of(f: Seq<char>) -> Option<nat> {
    let d = digits_of(f);
    if d.len() > 0 && hex_digits(d) && hex_value(d) <= u32::MAX {
        Some(hex_value(d))
    } else {
        None
    }
}

/// The default route among the lines from `li` on: the first line of at
/// least three words whose destination reads as zero and whose gateway
/// reads as a number; its interface and gateway.
pub open spec fn route_from(lines: Seq<Seq<char>>, li: int) -> Option<(Seq<char>, nat)>
    decreases lines.len() - li,
{
    if li >= lines.len() || li < 0 {
        None
    } else {
        let w = words(lines[li]);
        if w.len() >= 3 && hex_number_of(w[1]) == Some(0nat) && hex_number_of(w[2]).is_some() {
            Some((w[0], hex_number_of(w[2]).unwrap()))
        } else {
            route_from(lines, li + 1)
        }
    }
}

/// Read a hexadecimal number as `u32::from_str_radix(_, 16)` does.
pub fn parse_hex(f: &Vec<char>) -> (r: Option<u32>)
    ensures
        r == (match hex_number_of(f@) {
            Some(v) => Some(v as u32),
            None => None::<u32>,
        }),
{
    let n = f.len();
    let mut start: usize = 0;
    if n > 0 && f[0] == '+' {
        start = 1;
    }
    let ghost d = digits_of(f@);
    assert(d =~= f@.skip(start as int));
    if start >= n {
        assert(d.len() == 0);
        return None;
    }
    let mut acc: Option<u32> = Some(0);
    let mut k: usize = start;
    assert(d.take(0) =~= seq![]);
    while k < n
        invariant
            start <= k <= n,
            n == f@.len(),
            d == f@.skip(start as int),
            d == digits_of(f@),
            forall|j: int| 0 <= j < k - start ==> (#[trigger] hex_digit(d[j])).is_some(),
            acc == (if hex_value(d.take(k - start)) <= u32::MAX {
                Some(hex_value(d.take(k - start)) as u32)
            } else {
                None::<u32>
            }),
        decreases n - k,
    {
        let c = f[k];
        let u = c as u32;
        assert(d[k - start] == c);
        let dv: u32 = if 48 <= u && u <= 57 {
            u - 48
        } else if 97 <= u && u <= 102 {
            u - 87
        } else if 65 <= u && u <= 70 {
            u - 55
        } else {
            assert(hex_digit(d[k - start]).is_none());
            assert(!hex_digits(d));
            assert(hex_number_of(f@) == None::<nat>);
            return None;
        };
        let ghost j = k - start;
        assert(d.take(j + 1).drop_last() =~= d.take(j));
        assert(d.take(j + 1).last() == c);
        assert(hex_digit(c) == Some(dv as nat));
        acc = match acc {
            Some(a) => match a.checked_mul(16) {
                Some(m) => m.checked_add(dv),
                None => None,
            },
            None => None,
        };
        k += 1;
    }
    assert(d.take(n - start) =~= d);
    acc
}

/// The interface and gateway of the default route in the lines of a route
/// table; the first line, a header, is skipped.
pub fn default_route(lines: &Vec<String>) -> (r: Option<(Vec<char>, u32)>)
    ensures
        r == None::<(Vec<char>, u32)> <==> route_from(
            lines@.map_values(|s: String| s@),
            1,
        ) == None::<(Seq<char>, nat)>,
        r matches Some((dev, gw)) ==> route_from(lines@.map_values(|s: String| s@), 1) == Some(
            (dev@, gw as nat),
        ),
{
    let ghost text = lines@.map_values(|s: String| s@);
    // skip first line
    let mut li: usize = 1;
    while li < lines.len()
        invariant
            1 <= li,
            text == lines@.map_values(|s: String| s@),
            route_from(text, 1) == route_from(text, li as int),
        decreases lines@.len() - li,
    {
        let fields = split_words(lines[li].as_str());
        let ghost w = views(fields@);
        assert(text[li as int] == lines@[li as int]@);
        if fields.len() >= 3 {
            assert(w[1] == fields@[1]@ && w[2] == fields@[2]@ && w[0] == fields@[0]@);
            if let Some(destination) = parse_hex(&fields[1]) {
                if destination == 0 {
                    if let Some(gateway) = parse_hex(&fields[2]) {
                        let intf = fields[0].clone();
                        assert(intf@ == fields@[0]@);
                        return Some((intf, gateway));
                    }
                }
            }
        }
        li += 1;
    }
    None
}

} // verus!
