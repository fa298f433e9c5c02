//! Curves written out as the text of an SVG document.

use crate::bezier::Bezier;
use vstd::prelude::*;
use vstd::string::StringExecFns;

verus! {

/// The character of a single decimal digit.
pub open spec fn digit(d: int) -> char {
    if d == 0 {
        '0'
    } else if d == 1 {
        '1'
    } else if d == 2 {
        '2'
    } else if d == 3 {
        '3'
    } else if d == 4 {
        '4'
    } else if d == 5 {
        '5'
    } else if d == 6 {
        '6'
    } else if d == 7 {
        '7'
    } else if d == 8 {
        '8'
    } else {
        '9'
    }
}

/// The decimal digits of `n`, most significant first, without leading
/// zeros.
pub open spec fn digits(n: nat) -> Seq<char>
    decreases n,
{
    if n < 10 {
        seq![digit(n as int)]
    } else {
        digits(n / 10).push(digit((n % 10) as int))
    }
}

/// The decimal text of `v`, with a minus sign in front of a negative
/// number.
pub open spec fn decimal(v: int) -> Seq<char> {
    if v < 0 {
        seq!['-'] + digits((-v) as nat)
    } else {
        digits(v as nat)
    }
}

/// The coordinates of one curve as the text of a path element: the start
/// after `M`, then the two control points and the end after `C`.
pub open spec fn path_element(line: Bezier) -> Seq<char> {
    "<path d=\"M"@ + decimal(line.start.x as int) + " "@ + decimal(line.start.y as int) + " C "@
        + decimal(line.control1.x as int) + " "@ + decimal(line.control1.y as int) + ", "@
        + decimal(line.control2.x as int) + " "@ + decimal(line.control2.y as int) + ", "@
        + decimal(line.end.x as int) + " "@ + decimal(line.end.y as int)
        + "\" style=\"stroke: black;fill:none\"/>"@
}

/// The path elements of `lines`, one after the other.
pub open spec fn path_elements(lines: Seq<Bezier>) -> Seq<char>
    decreases lines.len(),
{
    if lines.len() == 0 {
        Seq::empty()
    } else {
        path_elements(lines.drop_last()) + path_element(lines.last())
    }
}

/// The SVG document that draws `lines`.
pub open spec fn document(lines: Seq<Bezier>) -> Seq<char> {
    "<svg width=\"\" height=\"\" xmlns=\"http://www.w3.org/2000/svg\">"@ + path_elements(lines)
        + "</svg>"@
}

/// The text of a single decimal digit.
fn digit_text(d: u32) -> (text: &'static str)
    requires
        d < 10,
    ensures
        text@ == seq![digit(d as int)],
{
    proof {
        reveal_strlit("0");
        reveal_strlit("1");
        reveal_strlit("2");
        reveal_strlit("3");
        reveal_strlit("4");
        reveal_strlit("5");
        reveal_strlit("6");
        reveal_strlit("7");
        reveal_strlit("8");
        reveal_strlit("9");
    }
    let text = if d == 0 {
        "0"
    } else if d == 1 {
        "1"
    } else if d == 2 {
        "2"
    } else if d == 3 {
        "3"
    } else if d == 4 {
        "4"
    } else if d == 5 {
        "5"
    } else if d == 6 {
        "6"
    } else if d == 7 {
        "7"
    } else if d == 8 {
        "8"
    } else {
        "9"
    };
    assert(text@ =~= seq![digit(d as int)]);
    text
}

/// Appends the decimal digits of `n`.
fn push_digits(out: &mut String, n: u32)
    ensures
        final(out)@ == old(out)@ + digits(n as nat),
    decreases n,
{
    if n >= 10 {
        push_digits(out, n / 10);
    }
    out.append(digit_text(n % 10));
    assert(digits(n as nat) =~= if n < 10 {
        seq![digit(n as int)]
    } else {
        digits((n / 10) as nat) + seq![digit((n % 10) as int)]
    });
}

/// Appends the decimal text of `v`.
fn push_decimal(out: &mut String, v: i32)
    ensures
        final(out)@ == old(out)@ + decimal(v as int),
{
    if v < 0 {
        proof {
            reveal_strlit("-");
        }
        assert("-"@ =~= seq!['-']);
        out.append("-");
        push_digits(out, (-(v as i64)) as u32);
    } else {
        push_digits(out, v as u32);
    }
}

/// Appends the path element of `line`.
fn push_path(out: &mut String, line: &Bezier)
    ensures
        final(out)@ == old(out)@ + path_element(*line),
{
    out.append("<path d=\"M");
    push_decimal(out, line.start.x);
    out.append(" ");
    push_decimal(out, line.start.y);
    out.append(" C ");
    push_decimal(out, line.control1.x);
    out.append(" ");
    push_decimal(out, line.control1.y);
    out.append(", ");
    push_decimal(out, line.control2.x);
    out.append(" ");
    push_decimal(out, line.control2.y);
    out.append(", ");
    push_decimal(out, line.end.x);
    out.append(" ");
    push_decimal(out, line.end.y);
    out.append("\" style=\"stroke: black;fill:none\"/>");
}

/// Writes `lines` out as an SVG document with one path element for each
/// curve, in order.
pub fn export(lines: &Vec<Bezier>) -> (svg: String)
    ensures
        svg@ == document(lines@),
{
    let mut svg = String::from_str(
        "<svg width=\"\" height=\"\" xmlns=\"http://www.w3.org/2000/svg\">",
    );
    let ghost head = svg@;
    let mut i: usize = 0;
    while i < lines.len()
        invariant
            i <= lines@.len(),
            svg@ == head + path_elements(lines@.take(i as int)),
        decreases lines@.len() - i,
    {
        push_path(&mut svg, &lines[i]);
        proof {
            assert(lines@.take(i + 1).drop_last() =~= lines@.take(i as int));
            assert(lines@.take(i + 1).last() == lines@[i as int]);
        }
        i = i + 1;
    }
    assert(lines@.take(i as int) =~= lines@);
    svg.append("</svg>");
    svg
}

} // verus!
