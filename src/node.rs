use vstd::prelude::*;
use vstd::string::StringExecFns;

use crate::random::random_below;

verus! {

/// A city: a point with integer coordinates on the plane.
#[derive(Clone, Copy, Debug, PartialEq, Eq, Structural)]
pub struct Node {
    x: i64,
    y: i64,
}

/// The decimal digits of `n`, most significant first.
pub open spec fn digits(n: nat) -> Seq<char>
    decreases n,
{
    let d = seq!['0', '1', '2', '3', '4', '5', '6', '7', '8', '9'];
    if n < 10 {
        seq![d[n as int]]
    } else {
        digits(n / 10).push(d[(n % 10) as int])
    }
}

/// How an integer is written in decimal: a `-` for a negative one, then its digits.
pub open spec fn decimal(i: int) -> Seq<char> {
    if i < 0 {
        seq!['-'] + digits((-i) as nat)
    } else {
        digits(i as nat)
    }
}

/// The decimal digit `d` as a one-character string.
fn digit_str(d: u64) -> (r: &'static str)
    requires
        d < 10,
    ensures
        r@ == seq![seq!['0', '1', '2', '3', '4', '5', '6', '7', '8', '9'][d as int]],
{
    proof {
        reveal_strlit("0");
        reveal_strlit("1");
        reveal_strlit("2");
        reveal_strlit("3");
        reveal_strlit("4");
        reveal_strlit("5");
        reveal_strlit("6");
        reveal_strlit("7");
        reveal_strlit("8");
        reveal_strlit("9");
    }
    let r = if d == 0 {
        "0"
    } else if d == 1 {
        "1"
    } else if d == 2 {
        "2"
    } else if d == 3 {
        "3"
    } else if d == 4 {
        "4"
    } else if d == 5 {
        "5"
    } else if d == 6 {
        "6"
    } else if d == 7 {
        "7"
    } else if d == 8 {
        "8"
    } else {
        "9"
    };
    assert(r@ =~= seq![seq!['0', '1', '2', '3', '4', '5', '6', '7', '8', '9'][d as int]]);
    r
}

/// Appends the decimal digits of `n` to `s`.
fn write_digits(s: &mut String, n: u64)
    ensures
        final(s)@ == old(s)@ + digits(n as nat),
    decreases n,
{
    if n >= 10 {
        write_digits(s, n / 10);
    }
    s.append(digit_str(n % 10));
    assert(s@ =~= old(s)@ + digits(n as nat));
}

/// The integer `i` written in decimal.
fn decimal_string(i: i64) -> (r: String)
    ensures
        r@ == decimal(i as int),
{
    let mut s: String;
    let magnitude: u64;
    if i < 0 {
        s = <String as StringExecFns>::from_str("-");
        proof {
            reveal_strlit("-");
        }
        magnitude = (-(i as i128)) as u64;
    } else {
        s = String::new();
        magnitude = i as u64;
    }
    write_digits(&mut s, magnitude);
    assert(s@ =~= decimal(i as int));
    s
}

impl Node {
    pub closed spec fn x_spec(&self) -> int {
        self.x as int
    }

    pub closed spec fn y_spec(&self) -> int {
        self.y as int
    }

    /// The rendering `(x , y)` of a point.
    pub open spec fn text(&self) -> Seq<char> {
        seq!['('] + decimal(self.x_spec()) + seq![' ', ',', ' '] + decimal(self.y_spec()) + seq![')']
    }

    /// A point whose coordinates are drawn independently and uniformly from
    /// `[start, end)`.
    pub fn new_random(start: u64, end: u64) -> (r: Node)
        requires
            start < end,
            end <= 0x8000_0000_0000_0000u64,
        ensures
            start <= r.x_spec() < end,
            start <= r.y_spec() < end,
    {
        let width = (end - start) as u128;
        let y = start as u128 + random_below(width);
        let x = start as u128 + random_below(width);
        Node { x: x as i64, y: y as i64 }
    }

    pub fn new(x: i64, y: i64) -> (r: Node)
        ensures
            r.x_spec() == x,
            r.y_spec() == y,
    {
        Node { x, y }
    }

    pub fn get_x(&self) -> (r: i64)
        ensures
            r == self.x_spec(),
    {
        self.x
    }

    pub fn get_y(&self) -> (r: i64)
        ensures
            r == self.y_spec(),
    {
        self.y
    }

    pub fn as_string(&self) -> (r: String)
        ensures
            r@ == self.text(),
    {
        let mut s = <String as StringExecFns>::from_str("(");
        s.append(decimal_string(self.x).as_str());
        s.append(" , ");
        s.append(decimal_string(self.y).as_str());
        s.append(")");
        proof {
            reveal_strlit("(");
            reveal_strlit(" , ");
            reveal_strlit(")");
        }
        assert(s@ =~= self.text());
        s
    }
}

/// A point is fixed by its coordinates: two points are equal exactly when
/// their coordinates are.
pub proof fn lemma_node_eq(a: Node, b: Node)
    ensures
        (a == b) <==> (a.x_spec() == b.x_spec() && a.y_spec() == b.y_spec()),
{
}

} // verus!
