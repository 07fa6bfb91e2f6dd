//! Pieces of message texts.

use vstd::prelude::*;
use crate::value::{lemma_list_model, lemma_members_model, DataValue, Val};

verus! {

/// The digit for a number below ten.
pub open spec fn digit(d: nat) -> char {
    (('0' as u32) + d) as char
}

/// A number in decimal digits, without leading zeros.
pub open spec fn decimal(n: nat) -> Seq<char>
    decreases n,
{
    if n < 10 {
        seq![digit(n)]
    } else {
        decimal(n / 10).push(digit(n % 10))
    }
}

/// A number in decimal digits, with its sign where it is below zero.
pub open spec fn signed(n: int) -> Seq<char> {
    if n < 0 {
        "-"@ + decimal((-n) as nat)
    } else {
        decimal(n as nat)
    }
}

/// A value as it is shown in a message.
pub open spec fn val_text(v: Val) -> Seq<char>
    decreases v,
{
    match v {
        Val::Null => "null"@,
        Val::Bool(b) => if b {
            "true"@
        } else {
            "false"@
        },
        Val::Num(n) => signed(n as int),
        Val::Str(s) => "\""@ + s + "\""@,
        Val::List(xs) => "["@ + vals_text(xs) + "]"@,
        Val::Members(xs) => "{"@ + vals_text(xs) + "}"@,
        Val::Validity(s) => if s.is_assert {
            "+"@ + signed(s.ts as int)
        } else {
            "~"@ + signed(s.ts as int)
        },
        Val::Interval(i) => "["@ + signed(i.start as int) + ", "@ + signed(i.end as int) + ")"@,
        Val::Bot => "bottom"@,
    }
}

/// Values with a comma between each two.
pub open spec fn vals_text(xs: Seq<Val>) -> Seq<char>
    decreases xs,
{
    if xs.len() == 0 {
        Seq::empty()
    } else if xs.len() == 1 {
        val_text(xs.last())
    } else {
        vals_text(xs.drop_last()) + ", "@ + val_text(xs.last())
    }
}

/// The digit for a number below ten, as text.
fn digit_text(d: u64) -> (r: &'static str)
    requires
        d < 10,
    ensures
        r@ == seq![digit(d as nat)],
{
    proof {
        reveal_strlit("0");
        reveal_strlit("1");
        reveal_strlit("2");
        reveal_strlit("3");
        reveal_strlit("4");
        reveal_strlit("5");
        reveal_strlit("6");
        reveal_strlit("7");
        reveal_strlit("8");
        reveal_strlit("9");
    }
    let r = match d {
        0 => "0",
        1 => "1",
        2 => "2",
        3 => "3",
        4 => "4",
        5 => "5",
        6 => "6",
        7 => "7",
        8 => "8",
        _ => "9",
    };
    assert(r@ =~= seq![digit(d as nat)]);
    r
}

/// Add a number to a text.
pub fn write_decimal(out: &mut String, n: u64)
    ensures
        final(out)@ == old(out)@ + decimal(n as nat),
    decreases n,
{
    let ghost before = out@;
    if n < 10 {
        out.append(digit_text(n));
    } else {
        write_decimal(out, n / 10);
        out.append(digit_text(n % 10));
        proof {
            assert(before + decimal((n / 10) as nat) + seq![digit((n % 10) as nat)] =~= before
                + decimal(n as nat));
        }
    }
}

/// Add a number with its sign to a text.
pub fn write_signed(out: &mut String, n: i64)
    ensures
        final(out)@ == old(out)@ + signed(n as int),
{
    let ghost before = out@;
    if n < 0 {
        let size: u64 = (-(n as i128)) as u64;
        out.append("-");
        write_decimal(out, size);
        proof {
            assert(before + "-"@ + decimal(size as nat) =~= before + signed(n as int));
        }
    } else {
        write_decimal(out, n as u64);
    }
}

/// Add a value to a text.
pub fn write_value(out: &mut String, v: &DataValue)
    ensures
        final(out)@ == old(out)@ + val_text(v.deep_view()),
    decreases v,
{
    proof {
        broadcast use {lemma_list_model, lemma_members_model};

    }
    let ghost before = out@;
    match v {
        DataValue::Null => {
            out.append("null");
        },
        DataValue::Bool(b) => {
            out.append(
                if *b {
                    "true"
                } else {
                    "false"
                },
            );
        },
        DataValue::Num(n) => {
            write_signed(out, *n);
        },
        DataValue::Str(s) => {
            out.append("\"");
            out.append(s.as_str());
            out.append("\"");
        },
        DataValue::List(xs) => {
            out.append("[");
            write_values(out, xs);
            out.append("]");
        },
        DataValue::Members(xs) => {
            out.append("{");
            write_values(out, xs);
            out.append("}");
        },
        DataValue::Validity(s) => {
            out.append(
                if s.is_assert {
                    "+"
                } else {
                    "~"
                },
            );
            write_signed(out, s.ts);
        },
        DataValue::Interval(i) => {
            out.append("[");
            write_signed(out, i.start);
            out.append(", ");
            write_signed(out, i.end);
            out.append(")");
        },
        DataValue::Bot => {
            out.append("bottom");
        },
    }
    proof {
        assert(out@ =~= before + val_text(v.deep_view()));
    }
}

/// Add values to a text, with a comma between each two.
fn write_values(out: &mut String, xs: &Vec<DataValue>)
    ensures
        final(out)@ == old(out)@ + vals_text(xs.deep_view()),
    decreases xs,
{
    let ghost before = out@;
    let ghost all = xs.deep_view();
    let mut i: usize = 0;
    proof {
        assert(all.take(0) =~= Seq::<Val>::empty());
        assert(before + vals_text(all.take(0)) =~= before);
    }
    while i < xs.len()
        invariant
            i <= xs@.len(),
            all == xs.deep_view(),
            all.len() == xs@.len(),
            out@ == before + vals_text(all.take(i as int)),
        decreases xs.len() - i,
    {
        proof {
            assert(all.take(i + 1).drop_last() =~= all.take(i as int));
            assert(all.take(i + 1).last() == xs@[i as int].deep_view());
        }
        if i > 0 {
            out.append(", ");
        }
        write_value(out, &xs[i]);
        proof {
            assert(out@ =~= before + vals_text(all.take(i + 1)));
        }
        i = i + 1;
    }
    proof {
        assert(all.take(i as int) =~= all);
    }
}

/// Two texts one after the other.
pub fn join_text(a: &str, b: &str) -> (r: String)
    ensures
        r@ == a@ + b@,
{
    let mut r = a.to_string();
    r.append(b);
    r
}

} // verus!
