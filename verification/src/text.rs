//! Text in messages: decimal numbers and shapes.

use vstd::prelude::*;

verus! {

/// The decimal digit for `n`.
pub open spec fn digit(n: nat) -> char {
    ('0' as u32 + n) as char
}

/// The decimal digits of `n`.
pub open spec fn decimal(n: nat) -> Seq<char>
    decreases n,
{
    if n < 10 {
        seq![digit(n)]
    } else {
        decimal(n / 10).push(digit(n % 10))
    }
}

/// The dimensions separated by a comma and a space.
pub open spec fn listed(shape: Seq<usize>) -> Seq<char>
    decreases shape.len(),
{
    if shape.len() == 0 {
        Seq::empty()
    } else if shape.len() == 1 {
        decimal(shape[0] as nat)
    } else {
        listed(shape.drop_last()) + ", "@ + decimal(shape.last() as nat)
    }
}

/// A shape as it is shown in messages: its dimensions in square brackets.
pub open spec fn shape_text(shape: Seq<usize>) -> Seq<char> {
    "["@ + listed(shape) + "]"@
}

fn digit_text(n: usize) -> (r: &'static str)
    requires
        n < 10,
    ensures
        r@ == seq![digit(n as nat)],
{
    proof {
        reveal_strlit("0");
        reveal_strlit("1");
        reveal_strlit("2");
        reveal_strlit("3");
        reveal_strlit("4");
        reveal_strlit("5");
        reveal_strlit("6");
        reveal_strlit("7");
        reveal_strlit("8");
        reveal_strlit("9");
    }
    let r = match n {
        0 => "0",
        1 => "1",
        2 => "2",
        3 => "3",
        4 => "4",
        5 => "5",
        6 => "6",
        7 => "7",
        8 => "8",
        _ => "9",
    };
    assert(r@ =~= seq![digit(n as nat)]);
    r
}

/// Appends the decimal digits of `n`.
pub fn push_decimal(out: &mut String, n: usize)
    ensures
        final(out)@ == old(out)@ + decimal(n as nat),
    decreases n,
{
    if n >= 10 {
        push_decimal(out, n / 10);
    }
    out.append(digit_text(n % 10));
    proof {
        if n < 10 {
            assert(n % 10 == n);
            assert(out@ =~= old(out)@ + decimal(n as nat));
        } else {
            assert(decimal(n as nat) == decimal(n as nat / 10).push(digit(n as nat % 10)));
            assert(out@ =~= old(out)@ + decimal(n as nat));
        }
    }
}

/// Appends a shape in square brackets.
pub fn push_shape(out: &mut String, shape: &Vec<usize>)
    ensures
        final(out)@ == old(out)@ + shape_text(shape@),
{
    let ghost start = out@;
    out.append("[");
    let mut i: usize = 0;
    assert(out@ =~= start + "["@ + listed(shape@.take(0)));
    while i < shape.len()
        invariant
            i <= shape.len(),
            out@ == start + "["@ + listed(shape@.take(i as int)),
        decreases shape.len() - i,
    {
        let ghost before = shape@.take(i as int);
        let ghost after = shape@.take(i + 1);
        if i > 0 {
            out.append(", ");
        }
        push_decimal(out, shape[i]);
        proof {
            assert(after.drop_last() =~= before);
            assert(out@ =~= start + "["@ + listed(after));
        }
        i = i + 1;
    }
    assert(shape@.take(i as int) =~= shape@);
    out.append("]");
    assert(out@ =~= start + shape_text(shape@));
}

/// Owned text.
pub fn owned(text: &str) -> (r: String)
    ensures
        r@ == text@,
{
    text.to_owned()
}

/// The decimal digits of `n` as owned text.
pub fn decimal_text(n: usize) -> (r: String)
    ensures
        r@ == decimal(n as nat),
{
    let mut r = owned("");
    push_decimal(&mut r, n);
    proof {
        reveal_strlit("");
        assert(r@ =~= decimal(n as nat));
    }
    r
}

/// Text starts with a prefix.
pub open spec fn starts(text: Seq<char>, prefix: Seq<char>) -> bool {
    prefix.len() <= text.len() && text.take(prefix.len() as int) == prefix
}

/// Whether text starts with a prefix.
pub fn has_prefix(text: &str, prefix: &str) -> (r: bool)
    ensures
        r == starts(text@, prefix@),
{
    let n: usize = prefix.unicode_len();
    if n > text.unicode_len() {
        return false;
    }
    let head = text.substring_char(0, n);
    assert(text@.subrange(0, n as int) =~= text@.take(n as int));
    owned(head) == owned(prefix)
}

} // verus!
