//! Byte counts with a magnitude suffix.

use vstd::prelude::*;

use crate::number::{suffix, Unit, MAX_STEP};
use crate::text::{decimal_digits, push_decimal, string_from_chars};

verus! {

/// A number of bytes.
#[derive(Debug, Clone, Copy)]
pub struct Bytes(pub u64);

/// Integer division by `base` while the count is at least `base`, from
/// suffix index `step` up to the last suffix; gives the count and the index.
pub open spec fn bytes_scaled(n: nat, base: nat, step: nat) -> (nat, nat)
    decreases 5 - step,
{
    if step < 5 && base > 0 && n >= base {
        bytes_scaled(n / base, base, step + 1)
    } else {
        (n, step)
    }
}

/// The text of `n` bytes in unit `u`: the whole scaled count, its suffix and `B`.
pub open spec fn bytes_text(n: nat, u: Unit) -> Seq<char> {
    let base: nat = if u == Unit::Si {
        1000
    } else {
        1024
    };
    let (q, i) = bytes_scaled(n, base, 0);
    decimal_digits(q) + suffix(u, i) + seq!['B']
}

fn display(n: u64, u: Unit) -> (r: String)
    ensures
        r@ == bytes_text(n as nat, u),
{
    let base: u64 = if u == Unit::Si {
        1000
    } else {
        1024
    };
    let mut q = n;
    let mut step: usize = 0;
    while step < MAX_STEP && q >= base
        invariant
            step <= MAX_STEP,
            base == 1000 || base == 1024,
            base == (if u == Unit::Si {
                1000nat
            } else {
                1024nat
            }),
            bytes_scaled(q as nat, base as nat, step as nat) == bytes_scaled(
                n as nat,
                base as nat,
                0,
            ),
        decreases MAX_STEP - step,
    {
        q = q / base;
        step = step + 1;
    }
    let mut out: Vec<char> = Vec::new();
    push_decimal(&mut out, q);
    if step > 0 {
        let c = if step == 1 {
            'k'
        } else if step == 2 {
            'M'
        } else if step == 3 {
            'G'
        } else if step == 4 {
            'T'
        } else {
            'P'
        };
        out.push(c);
        if u == Unit::Bin {
            out.push('i');
        }
    }
    out.push('B');
    assert(out@ =~= bytes_text(n as nat, u));
    string_from_chars(&out)
}

impl Bytes {
    /// The count in SI units (powers of 1000), e.g. `1kB`; `P` is the
    /// largest suffix.
    pub fn display_si(&self) -> (r: String)
        ensures
            r@ == bytes_text(self.0 as nat, Unit::Si),
    {
        display(self.0, Unit::Si)
    }

    /// The count in binary units (powers of 1024), e.g. `1kiB`; `Pi` is the
    /// largest suffix.
    pub fn display_bin(&self) -> (r: String)
        ensures
            r@ == bytes_text(self.0 as nat, Unit::Bin),
    {
        display(self.0, Unit::Bin)
    }
}

} // verus!
