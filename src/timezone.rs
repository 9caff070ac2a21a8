//! A fixed UTC offset with an optional name.
use vstd::prelude::*;

verus! {

/// The character of decimal digit `d`.
pub open spec fn digit_char(d: nat) -> char {
    if d == 0 {
        '0'
    } else if d == 1 {
        '1'
    } else if d == 2 {
        '2'
    } else if d == 3 {
        '3'
    } else if d == 4 {
        '4'
    } else if d == 5 {
        '5'
    } else if d == 6 {
        '6'
    } else if d == 7 {
        '7'
    } else if d == 8 {
        '8'
    } else {
        '9'
    }
}

/// The decimal digits of `n`, padded with zeros to at least `width`.
pub open spec fn decimal(n: nat, width: nat) -> Seq<char>
    decreases n, width,
{
    if n < 10 && width <= 1 {
        seq![digit_char(n)]
    } else {
        decimal(
            n / 10,
            if width > 0 {
                (width - 1) as nat
            } else {
                0
            },
        ) + seq![digit_char(n % 10)]
    }
}

/// `+hh:mm` or `-hh:mm` for an offset in seconds (whole minutes only).
pub open spec fn offset_label(offset: int) -> Seq<char> {
    let minutes = (if offset < 0 {
        -offset
    } else {
        offset
    }) / 60;
    seq![
        if offset < 0 {
            '-'
        } else {
            '+'
        },
    ] + decimal((minutes / 60) as nat, 2) + seq![':'] + decimal((minutes % 60) as nat, 2)
}

/// A fixed offset from UTC in seconds, with an optional name.
pub struct FixedTimezone {
    pub offset: i32,
    pub name: Option<String>,
}

fn digit_str(d: u32) -> (r: &'static str)
    requires
        d < 10,
    ensures
        r@ == seq![digit_char(d as nat)],
{
    proof {
        reveal_strlit("0");
        reveal_strlit("1");
        reveal_strlit("2");
        reveal_strlit("3");
        reveal_strlit("4");
        reveal_strlit("5");
        reveal_strlit("6");
        reveal_strlit("7");
        reveal_strlit("8");
        reveal_strlit("9");
    }
    let r = if d == 0 {
        "0"
    } else if d == 1 {
        "1"
    } else if d == 2 {
        "2"
    } else if d == 3 {
        "3"
    } else if d == 4 {
        "4"
    } else if d == 5 {
        "5"
    } else if d == 6 {
        "6"
    } else if d == 7 {
        "7"
    } else if d == 8 {
        "8"
    } else {
        "9"
    };
    assert(r@ =~= seq![digit_char(d as nat)]);
    r
}

fn decimal_string(n: u32, width: u32) -> (r: String)
    ensures
        r@ == decimal(n as nat, width as nat),
    decreases n, width,
{
    if n < 10 && width <= 1 {
        String::from_str(digit_str(n))
    } else {
        let mut s = decimal_string(
            n / 10,
            if width > 0 {
                width - 1
            } else {
                0
            },
        );
        s.append(digit_str(n % 10));
        s
    }
}

impl FixedTimezone {
    pub fn new(offset: i32, name: Option<String>) -> (r: FixedTimezone)
        ensures
            r.offset == offset,
            r.name == name,
    {
        FixedTimezone { offset, name }
    }

    /// The zone's name, or else its offset as `+hh:mm` or `-hh:mm`.
    pub fn tzname(&self) -> (r: String)
        ensures
            r@ == match self.name {
                Some(n) => n@,
                None => offset_label(self.offset as int),
            },
    {
        match &self.name {
            Some(n) => n.clone(),
            None => {
                let magnitude: u32 = if self.offset < 0 {
                    (-(self.offset as i64)) as u32
                } else {
                    self.offset as u32
                };
                let minutes = magnitude / 60;
                let mut label = String::from_str(
                    if self.offset < 0 {
                        "-"
                    } else {
                        "+"
                    },
                );
                proof {
                    reveal_strlit("-");
                    reveal_strlit("+");
                    reveal_strlit(":");
                }
                label.append(decimal_string(minutes / 60, 2).as_str());
                label.append(":");
                label.append(decimal_string(minutes % 60, 2).as_str());
                assert(label@ =~= offset_label(self.offset as int));
                label
            },
        }
    }
}

} // verus!
