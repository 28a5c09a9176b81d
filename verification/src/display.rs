//! Rendering a value as a decimal string: digits most significant first,
//! grouped in threes by a thousands separator, with a minus sign for
//! negative values.

use vstd::prelude::*;
use vstd::string::StringExecFns;
use crate::Infinint;
use crate::magnitude::spec_digits;

verus! {

/// The character of one decimal digit.
pub open spec fn digit_char(d: u8) -> char {
    if d == 0 {
        '0'
    } else if d == 1 {
        '1'
    } else if d == 2 {
        '2'
    } else if d == 3 {
        '3'
    } else if d == 4 {
        '4'
    } else if d == 5 {
        '5'
    } else if d == 6 {
        '6'
    } else if d == 7 {
        '7'
    } else if d == 8 {
        '8'
    } else {
        '9'
    }
}

/// The characters produced for digit positions j-1 down to 0 of a
/// little-endian digit list, a comma after every digit whose position is a
/// positive multiple of three.
pub open spec fn rendered_digits(ds: Seq<u8>, j: int) -> Seq<char>
    decreases j,
{
    if j <= 0 {
        Seq::<char>::empty()
    } else {
        seq![digit_char(ds[j - 1])] + (if j - 1 > 0 && (j - 1) % 3 == 0 {
            seq![',']
        } else {
            Seq::<char>::empty()
        }) + rendered_digits(ds, j - 1)
    }
}

/// The characters for digit positions j-1 down to 0 without separators.
pub open spec fn rendered_digits_plain(ds: Seq<u8>, j: int) -> Seq<char>
    decreases j,
{
    if j <= 0 {
        Seq::<char>::empty()
    } else {
        seq![digit_char(ds[j - 1])] + rendered_digits_plain(ds, j - 1)
    }
}

/// The ungrouped rendering of a value: an optional minus sign, then the bare
/// digits, most significant first.
pub open spec fn spec_plain_decimal_string(x: &Infinint) -> Seq<char> {
    let ds = spec_digits(x.digits_vec@);
    (if x.negative {
        seq!['-']
    } else {
        Seq::<char>::empty()
    }) + rendered_digits_plain(ds, ds.len() as int)
}

/// The full rendering of a value: an optional minus sign, then the grouped
/// digits, most significant first.
pub open spec fn spec_decimal_string(x: &Infinint) -> Seq<char> {
    let ds = spec_digits(x.digits_vec@);
    (if x.negative {
        seq!['-']
    } else {
        Seq::<char>::empty()
    }) + rendered_digits(ds, ds.len() as int)
}

/// Appends the character of one decimal digit.
fn push_digit_char(s: &mut String, d: u8)
    requires
        d <= 9,
    ensures
        final(s)@ == old(s)@ + seq![digit_char(d)],
{
    match d {
        0 => {
            proof {
                reveal_strlit("0");
            }
            s.append("0")
        },
        1 => {
            proof {
                reveal_strlit("1");
            }
            s.append("1")
        },
        2 => {
            proof {
                reveal_strlit("2");
            }
            s.append("2")
        },
        3 => {
            proof {
                reveal_strlit("3");
            }
            s.append("3")
        },
        4 => {
            proof {
                reveal_strlit("4");
            }
            s.append("4")
        },
        5 => {
            proof {
                reveal_strlit("5");
            }
            s.append("5")
        },
        6 => {
            proof {
                reveal_strlit("6");
            }
            s.append("6")
        },
        7 => {
            proof {
                reveal_strlit("7");
            }
            s.append("7")
        },
        8 => {
            proof {
                reveal_strlit("8");
            }
            s.append("8")
        },
        _ => {
            proof {
                reveal_strlit("9");
            }
            s.append("9")
        },
    }
}

impl Infinint {
    /// Renders the value in decimal, most significant digit first, grouping
    /// every three digits with a comma and prefixing a minus sign when the
    /// value is negative.
    pub fn to_decimal_string(&self) -> (r: String)
        requires
            self.wf(),
        ensures
            r@ == spec_decimal_string(self),
    {
        let ds = self.digits();
        let ghost dss = ds@;
        let mut out = String::new();
        if self.negative {
            proof {
                reveal_strlit("-");
            }
            out.append("-");
        }
        let ghost sign_part = out@;
        let mut j: usize = ds.len();
        while j > 0
            invariant
                j <= dss.len(),
                dss == ds@,
                self.wf(),
                dss == spec_digits(self.digits_vec@),
                sign_part + rendered_digits(dss, dss.len() as int) == spec_decimal_string(self),
                out@ + rendered_digits(dss, j as int) == sign_part + rendered_digits(
                    dss,
                    dss.len() as int,
                ),
            decreases j,
        {
            j = j - 1;
            let ghost out0 = out@;
            proof {
                let full = crate::magnitude::mag_digits(self.digits_vec@);
                assert(crate::digit::byte_ok(self.digits_vec@[(j as int) / 2]));
                assert(dss[j as int] == full[j as int]);
                assert(dss[j as int] <= 9);
            }
            push_digit_char(&mut out, ds[j]);
            if j > 0 && j % 3 == 0 {
                proof {
                    reveal_strlit(",");
                }
                out.append(",");
            }
            proof {
                assert(out@ + rendered_digits(dss, j as int) =~= out0 + rendered_digits(
                    dss,
                    j as int + 1,
                ));
            }
        }
        proof {
            assert(rendered_digits(dss, 0) =~= Seq::<char>::empty());
            assert(out@ =~= spec_decimal_string(self));
        }
        out
    }

    /// Renders the value in decimal without digit grouping, prefixing a
    /// minus sign when the value is negative.
    pub fn to_plain_decimal_string(&self) -> (r: String)
        requires
            self.wf(),
        ensures
            r@ == spec_plain_decimal_string(self),
    {
        let ds = self.digits();
        let ghost dss = ds@;
        let mut out = String::new();
        if self.negative {
            proof {
                reveal_strlit("-");
            }
            out.append("-");
        }
        let ghost sign_part = out@;
        let mut j: usize = ds.len();
        while j > 0
            invariant
                j <= dss.len(),
                dss == ds@,
                self.wf(),
                dss == spec_digits(self.digits_vec@),
                sign_part + rendered_digits_plain(dss, dss.len() as int)
                    == spec_plain_decimal_string(self),
                out@ + rendered_digits_plain(dss, j as int) == sign_part + rendered_digits_plain(
                    dss,
                    dss.len() as int,
                ),
            decreases j,
        {
            j = j - 1;
            let ghost out0 = out@;
            proof {
                let full = crate::magnitude::mag_digits(self.digits_vec@);
                assert(crate::digit::byte_ok(self.digits_vec@[(j as int) / 2]));
                assert(dss[j as int] == full[j as int]);
                assert(dss[j as int] <= 9);
            }
            push_digit_char(&mut out, ds[j]);
            proof {
                assert(out@ + rendered_digits_plain(dss, j as int) =~= out0
                    + rendered_digits_plain(dss, j as int + 1));
            }
        }
        proof {
            assert(rendered_digits_plain(dss, 0) =~= Seq::<char>::empty());
            assert(out@ =~= spec_plain_decimal_string(self));
        }
        out
    }
}

} // verus!
