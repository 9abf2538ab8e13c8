//! Numbers as text.

use vstd::prelude::*;
use vstd::string::StringExecFns;

verus! {

/// The character of a digit.
pub open spec fn digit(d: int) -> char {
    if d == 0 {
        '0'
    } else if d == 1 {
        '1'
    } else if d == 2 {
        '2'
    } else if d == 3 {
        '3'
    } else if d == 4 {
        '4'
    } else if d == 5 {
        '5'
    } else if d == 6 {
        '6'
    } else if d == 7 {
        '7'
    } else if d == 8 {
        '8'
    } else {
        '9'
    }
}

/// A number in decimal.
pub open spec fn decimal(x: nat) -> Seq<char>
    decreases x,
{
    if x < 10 {
        seq![digit(x as int)]
    } else {
        decimal(x / 10).push(digit((x % 10) as int))
    }
}

fn push_digit(text: &mut String, d: u64)
    requires
        d < 10,
    ensures
        final(text)@ == old(text)@.push(digit(d as int)),
{
    proof {
        reveal_strlit("0");
        reveal_strlit("1");
        reveal_strlit("2");
        reveal_strlit("3");
        reveal_strlit("4");
        reveal_strlit("5");
        reveal_strlit("6");
        reveal_strlit("7");
        reveal_strlit("8");
        reveal_strlit("9");
    }
    if d == 0 {
        text.append("0");
    } else if d == 1 {
        text.append("1");
    } else if d == 2 {
        text.append("2");
    } else if d == 3 {
        text.append("3");
    } else if d == 4 {
        text.append("4");
    } else if d == 5 {
        text.append("5");
    } else if d == 6 {
        text.append("6");
    } else if d == 7 {
        text.append("7");
    } else if d == 8 {
        text.append("8");
    } else {
        text.append("9");
    }
    assert(text@ =~= old(text)@.push(digit(d as int)));
}

/// Adds a number in decimal.
pub fn push_decimal(text: &mut String, x: u64)
    ensures
        final(text)@ == old(text)@ + decimal(x as nat),
    decreases x,
{
    let ghost before = text@;
    if x >= 10 {
        push_decimal(text, x / 10);
    }
    push_digit(text, x % 10);
    assert(text@ =~= before + decimal(x as nat));
}

proof fn lemma_decimal_len(x: nat)
    ensures
        decimal(x).len() >= 1,
        x >= 10 ==> decimal(x).len() >= 2,
    decreases x,
{
    if x >= 10 {
        lemma_decimal_len(x / 10);
    }
}

/// A number is written with one digit for each power of ten, the highest first and none of them
/// leading zeros.
pub proof fn law_decimal_digits(a: nat, b: nat)
    requires
        b < 10,
    ensures
        digit(b as int) as int == 48 + b,
        decimal(b) == seq![digit(b as int)],
        a > 0 ==> decimal(10 * a + b) == decimal(a).push(digit(b as int)),
        decimal(a).len() > 1 ==> decimal(a)[0] != '0',
    decreases a,
{
    assert((10 * a + b) / 10 == a);
    assert((10 * a + b) % 10 == b);
    if a >= 10 {
        let h = a / 10;
        law_decimal_digits(h, 0);
        assert(h > 0);
        assert(decimal(a) == decimal(h).push(digit((a % 10) as int)));
        lemma_decimal_len(h);
        if decimal(h).len() == 1 {
            assert(h < 10);
            assert(decimal(h) == seq![digit(h as int)]);
        }
        assert(decimal(a)[0] == decimal(h)[0]);
    }
}

/// The text has the part somewhere in it.
pub open spec fn has_part(text: Seq<char>, part: Seq<char>) -> bool {
    exists|before: Seq<char>, after: Seq<char>| text == #[trigger] around(before, part, after)
}

pub open spec fn around(before: Seq<char>, part: Seq<char>, after: Seq<char>) -> Seq<char> {
    before + part + after
}

/// The text has all of the parts in it.
pub open spec fn has_parts(text: Seq<char>, parts: Seq<Seq<char>>) -> bool {
    forall|i: int| 0 <= i < parts.len() ==> has_part(text, #[trigger] parts[i])
}

/// A text that goes on has one more part and keeps those it had.
pub proof fn lemma_parts_grow(text: Seq<char>, parts: Seq<Seq<char>>, part: Seq<char>)
    requires
        has_parts(text, parts),
    ensures
        has_parts(text + part, parts.push(part)),
{
    let t = text + part;
    let p = parts.push(part);
    assert forall|i: int| 0 <= i < p.len() implies has_part(t, #[trigger] p[i]) by {
        if i < parts.len() {
            assert(has_part(text, parts[i]));
            let (b, a) = choose|b: Seq<char>, a: Seq<char>| text == #[trigger] around(b, parts[i], a);
            assert(t =~= around(b, p[i], a + part));
        } else {
            assert(t =~= around(text, part, Seq::empty()));
        }
    }
}

} // verus!
