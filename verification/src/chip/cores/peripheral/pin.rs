//! Pin names such as `PA3`.
use vstd::prelude::*;

use crate::fmt::{push_decimal, spec_decimal, string_from_chars};
use crate::text::{lemma_parse_decimal, parse_unsigned, spec_parse_unsigned};

verus! {

/// A pin: its port letter and number.
#[derive(Clone, Copy, Debug, PartialEq, Eq, PartialOrd, Ord, Hash)]
pub struct Pin {
    pub port: char,
    pub num: u8,
}

/// The pin a name denotes: `P`, a port character, then a number that fits in `u8` (parsed as the
/// standard library parses `u8`).
pub open spec fn spec_parse_pin(name: Seq<char>) -> Option<(char, u8)> {
    if name.len() < 2 || name[0] != 'P' {
        None
    } else {
        match spec_parse_unsigned(name.skip(2), 10, 255) {
            Some(n) => Some((name[1], n as u8)),
            None => None,
        }
    }
}

/// The name of a pin: `P`, the port, then the number in decimal.
pub open spec fn spec_pin_name(port: char, num: u8) -> Seq<char> {
    seq!['P', port] + spec_decimal(num as nat)
}

impl Pin {
    /// Parses a pin name such as `PA3`.
    pub fn parse(pin: &str) -> (r: Option<Pin>)
        ensures
            match spec_parse_pin(pin@) {
                Some((port, num)) => r == Some(Pin { port, num }),
                None => r is None,
            },
    {
        let n = pin.unicode_len();
        if n < 1 {
            return None;
        }
        let p = pin.get_char(0);
        if p != 'P' {
            return None;
        }
        if n < 2 {
            return None;
        }
        let port = pin.get_char(1);
        let rest = pin.substring_char(2, n);
        assert(rest@ =~= pin@.skip(2));
        match parse_unsigned(rest, 10, 255) {
            Some(num) => Some(Pin { port, num: num as u8 }),
            None => None,
        }
    }

    /// The name of the pin, such as `PA3`.
    pub fn to_string(&self) -> (r: String)
        ensures
            r@ == spec_pin_name(self.port, self.num),
    {
        let mut out: Vec<char> = Vec::new();
        out.push('P');
        out.push(self.port);
        push_decimal(&mut out, self.num as u64);
        assert(out@ =~= spec_pin_name(self.port, self.num));
        string_from_chars(&out)
    }
}


/// A pin's name reads back as the pin.
pub proof fn law_pin_name_round_trip(p: Pin)
    ensures
        spec_parse_pin(spec_pin_name(p.port, p.num)) == Some((p.port, p.num)),
{
    let name = spec_pin_name(p.port, p.num);
    lemma_parse_decimal(p.num as nat, 255);
    assert(name.skip(2) =~= spec_decimal(p.num as nat));
}

} // verus!
