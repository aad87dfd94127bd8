//! Texts that the library builds: numbers in decimal, and a label followed by
//! a bracketed list.

use vstd::prelude::*;
use vstd::string::StringExecFns;

verus! {

/// The ten decimal digits, `'0'` first.
pub open spec fn digits() -> Seq<char> {
    seq!['0', '1', '2', '3', '4', '5', '6', '7', '8', '9']
}

/// The decimal numeral of `n`, without leading zeros.
pub open spec fn decimal(n: nat) -> Seq<char>
    decreases n,
{
    if n < 10 {
        seq![digits()[n as int]]
    } else {
        decimal(n / 10).push(digits()[(n % 10) as int])
    }
}

/// The texts of `parts` in order, with `separator` between each two.
pub open spec fn joined(parts: Seq<Seq<char>>, separator: Seq<char>) -> Seq<char>
    decreases parts.len(),
{
    if parts.len() == 0 {
        Seq::empty()
    } else if parts.len() == 1 {
        parts[0]
    } else {
        joined(parts.drop_last(), separator) + separator + parts.last()
    }
}

/// A label alone where there are no parts; else the label, `-[`, the parts
/// with a comma between each two, and `]`.
pub open spec fn layout(label: Seq<char>, parts: Seq<Seq<char>>) -> Seq<char> {
    if parts.len() == 0 {
        label
    } else {
        label + seq!['-', '['] + joined(parts, seq![',']) + seq![']']
    }
}

/// The one-character text of the decimal digit `d`.
fn digit_text(d: usize) -> (text: &'static str)
    requires
        d < 10,
    ensures
        text@ == seq![digits()[d as int]],
{
    let all = "0123456789";
    proof {
        reveal_strlit("0123456789");
    }
    let text = all.substring_ascii(d, d + 1);
    assert(text@ =~= seq![digits()[d as int]]);
    text
}

/// The decimal numeral of `n`.
pub fn decimal_text(n: usize) -> (text: String)
    ensures
        text@ == decimal(n as nat),
{
    let mut text = String::from_str(digit_text(n % 10));
    let mut rest = n / 10;
    while rest > 0
        invariant
            rest > 0 ==> decimal(n as nat) == decimal(rest as nat) + text@,
            rest == 0 ==> decimal(n as nat) == text@,
        decreases rest,
    {
        let ghost shorter = text@;
        text = String::from_str(digit_text(rest % 10)).concat(text.as_str());
        proof {
            let d = seq![digits()[(rest % 10) as int]];
            assert(text@ == d + shorter);
            if rest >= 10 {
                assert(decimal(rest as nat) + shorter =~= decimal((rest / 10) as nat) + (d
                    + shorter));
            }
        }
        rest = rest / 10;
    }
    text
}

/// `label` alone where `parts` is empty; else `label`, `-[`, the texts of
/// `parts` with a comma between each two, and `]`.
pub fn compose(label: String, parts: &Vec<String>) -> (text: String)
    ensures
        text@ == layout(label@, parts.deep_view()),
{
    if parts.len() == 0 {
        return label;
    }
    let ghost texts = parts.deep_view();
    let mut text = label.concat("-[");
    text.append(parts[0].as_str());
    let mut i: usize = 1;
    proof {
        reveal_strlit("-[");
        assert("-["@ =~= seq!['-', '[']);
        assert(texts.subrange(0, 1).len() == 1);
    }
    while i < parts.len()
        invariant
            1 <= i <= parts.len(),
            texts == parts.deep_view(),
            text@ == label@ + seq!['-', '['] + joined(texts.subrange(0, i as int), seq![',']),
        decreases parts.len() - i,
    {
        text.append(",");
        text.append(parts[i].as_str());
        proof {
            reveal_strlit(",");
            assert(","@ =~= seq![',']);
            let before = texts.subrange(0, i as int);
            let now = texts.subrange(0, i + 1);
            assert(now.drop_last() =~= before);
            assert(now.last() == parts[i as int]@);
        }
        i += 1;
    }
    text.append("]");
    proof {
        reveal_strlit("]");
        assert("]"@ =~= seq![']']);
        assert(texts.subrange(0, i as int) =~= texts);
    }
    text
}

} // verus!
