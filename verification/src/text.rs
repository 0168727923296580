//! The neighbour map as text: one line for each particle that has a neighbour,
//! holding its identifier and then those of its neighbours, separated by single
//! spaces.

use vstd::prelude::*;
use vstd::string::*;
use crate::neighbor_map::NeighborMap;
use crate::particles::ID;

verus! {

/// The character of a decimal digit.
pub open spec fn digit(d: int) -> char {
    if d == 0 {
        '0'
    } else if d == 1 {
        '1'
    } else if d == 2 {
        '2'
    } else if d == 3 {
        '3'
    } else if d == 4 {
        '4'
    } else if d == 5 {
        '5'
    } else if d == 6 {
        '6'
    } else if d == 7 {
        '7'
    } else if d == 8 {
        '8'
    } else {
        '9'
    }
}

/// A number in decimal, without sign or leading zeros.
pub open spec fn decimal(n: nat) -> Seq<char>
    decreases n,
{
    if n < 10 {
        seq![digit(n as int)]
    } else {
        decimal(n / 10).push(digit((n % 10) as int))
    }
}

/// Identifiers in decimal, each with a space before it.
pub open spec fn listed(ids: Seq<ID>) -> Seq<char>
    decreases ids.len(),
{
    if ids.len() == 0 {
        Seq::<char>::empty()
    } else {
        listed(ids.drop_last()) + seq![' '] + decimal(ids.last() as nat)
    }
}

/// The line of one particle: its identifier, its neighbours, a line feed.
pub open spec fn line(id: ID, neighbors: Seq<ID>) -> Seq<char> {
    decimal(id as nat) + listed(neighbors) + seq!['\n']
}

/// The lines of the first `count` particles of `map`, in stored order.
pub open spec fn lines(map: NeighborMap, count: nat) -> Seq<char>
    decreases count,
{
    if count == 0 {
        Seq::<char>::empty()
    } else {
        let id = map.keys()[count - 1];
        lines(map, (count - 1) as nat) + line(id, map.neighbor_seq(id))
    }
}

/// The whole map as text.
pub open spec fn text(map: NeighborMap) -> Seq<char> {
    lines(map, map.keys().len())
}

spec fn leading(digits: Seq<u8>) -> Seq<char> {
    Seq::new(digits.len(), |i: int| digit(digits[digits.len() - 1 - i] as int))
}

fn digit_str(d: u8) -> (s: &'static str)
    requires
        d < 10,
    ensures
        s@ == seq![digit(d as int)],
{
    proof {
        reveal_strlit("0");
        reveal_strlit("1");
        reveal_strlit("2");
        reveal_strlit("3");
        reveal_strlit("4");
        reveal_strlit("5");
        reveal_strlit("6");
        reveal_strlit("7");
        reveal_strlit("8");
        reveal_strlit("9");
    }
    let s = match d {
        0 => "0",
        1 => "1",
        2 => "2",
        3 => "3",
        4 => "4",
        5 => "5",
        6 => "6",
        7 => "7",
        8 => "8",
        _ => "9",
    };
    s
}

/// Appends `n` in decimal.
pub fn push_decimal(out: &mut String, n: usize)
    ensures
        final(out)@ == old(out)@ + decimal(n as nat),
{
    let mut digits: Vec<u8> = Vec::new();
    digits.push((n % 10) as u8);
    let mut rest: usize = n / 10;
    while rest > 0
        invariant
            digits@.len() > 0,
            forall|i: int| 0 <= i < digits@.len() ==> digits@[i] < 10,
            decimal(n as nat) == if rest > 0 {
                decimal(rest as nat) + leading(digits@)
            } else {
                leading(digits@)
            },
        decreases rest,
    {
        digits.push((rest % 10) as u8);
        rest = rest / 10;
    }
    let mut left: usize = digits.len();
    while left > 0
        invariant
            left <= digits@.len(),
            forall|i: int| 0 <= i < digits@.len() ==> digits@[i] < 10,
            out@ == old(out)@ + leading(digits@).subrange(0, digits@.len() - left),
        decreases left,
    {
        left -= 1;
        out.append(digit_str(digits[left]));
    }
}

/// Appends the line of `id` with the given neighbours.
pub fn push_line(out: &mut String, id: ID, neighbors: &[ID])
    ensures
        final(out)@ == old(out)@ + line(id, neighbors@),
{
    push_decimal(out, id);
    let mut at: usize = 0;
    while at < neighbors.len()
        invariant
            at <= neighbors@.len(),
            out@ == old(out)@ + decimal(id as nat) + listed(neighbors@.subrange(0, at as int)),
        decreases neighbors@.len() - at,
    {
        proof {
            reveal_strlit(" ");
            let upto = neighbors@.subrange(0, at + 1);
            assert(upto.drop_last() =~= neighbors@.subrange(0, at as int));
        }
        out.append(" ");
        push_decimal(out, neighbors[at]);
        at += 1;
    }
    proof {
        reveal_strlit("\n");
        assert(neighbors@.subrange(0, neighbors@.len() as int) =~= neighbors@);
    }
    out.append("\n");
}

impl NeighborMap {
    /// Writes the map as text: the particles in stored order, one line each.
    /// A map without pairs gives the empty string.
    pub fn to_text(&self) -> (out: String)
        requires
            self.wf(),
        ensures
            out@ == text(*self),
    {
        let mut out = String::new();
        let count: usize = self.len();
        let mut k: usize = 0;
        while k < count
            invariant
                self.wf(),
                count == self.keys().len(),
                k <= count,
                out@ == lines(*self, k as nat),
            decreases count - k,
        {
            let id: ID = self.key_at(k);
            push_line(&mut out, id, self.get_neighbors(id));
            k += 1;
        }
        out
    }
}

} // verus!
