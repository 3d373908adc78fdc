//! Names of the tensors of a block.

use vstd::prelude::*;

verus! {

/// A decimal digit.
pub open spec fn digit(d: u8) -> Seq<char> {
    match d {
        0 => "0"@,
        1 => "1"@,
        2 => "2"@,
        3 => "3"@,
        4 => "4"@,
        5 => "5"@,
        6 => "6"@,
        7 => "7"@,
        8 => "8"@,
        _ => "9"@,
    }
}

/// The decimal digits of a number.
pub open spec fn decimal(n: nat) -> Seq<char>
    decreases n,
{
    if n < 10 {
        digit(n as u8)
    } else {
        decimal(n / 10) + digit((n % 10) as u8)
    }
}

/// The name of a tensor of a block: `blk.`, the number of the block, a dot, and a suffix.
pub open spec fn block_name(layer: nat, suffix: Seq<char>) -> Seq<char> {
    "blk."@ + decimal(layer) + "."@ + suffix
}

fn digit_of(d: usize) -> (r: &'static str)
    requires
        d < 10,
    ensures
        r@ == digit(d as u8),
{
    match d {
        0 => "0",
        1 => "1",
        2 => "2",
        3 => "3",
        4 => "4",
        5 => "5",
        6 => "6",
        7 => "7",
        8 => "8",
        _ => "9",
    }
}

/// Appends the decimal digits of a number.
fn append_decimal(s: &mut String, n: usize)
    ensures
        final(s)@ == old(s)@ + decimal(n as nat),
    decreases n,
{
    if n >= 10 {
        append_decimal(s, n / 10);
    }
    s.append(digit_of(n % 10));
    assert(s@ =~= old(s)@ + decimal(n as nat));
}

/// The name of a tensor of a block.
pub fn block_name_of(layer: usize, suffix: &str) -> (r: String)
    ensures
        r@ == block_name(layer as nat, suffix@),
{
    let mut r = String::new();
    r.append("blk.");
    append_decimal(&mut r, layer);
    r.append(".");
    r.append(suffix);
    assert(r@ =~= block_name(layer as nat, suffix@));
    r
}

/// The number that decimal digits stand for, the most significant first.
pub open spec fn number(digits: Seq<char>) -> int
    decreases digits.len(),
{
    if digits.len() == 0 {
        0
    } else {
        10 * number(digits.drop_last()) + (digits.last() as int - '0' as int)
    }
}

proof fn lemma_digit(d: nat)
    requires
        d < 10,
    ensures
        digit(d as u8).len() == 1,
        digit(d as u8)[0] as int == '0' as int + d,
{
    reveal_strlit("0");
    reveal_strlit("1");
    reveal_strlit("2");
    reveal_strlit("3");
    reveal_strlit("4");
    reveal_strlit("5");
    reveal_strlit("6");
    reveal_strlit("7");
    reveal_strlit("8");
    reveal_strlit("9");
}

/// The decimal digits of a number are digits, stand for the number, and do not begin with a zero
/// unless the number is zero.
pub proof fn law_decimal(n: nat)
    ensures
        number(decimal(n)) == n,
        decimal(n).len() > 0,
        n > 0 ==> decimal(n)[0] != '0',
        forall|i: int| 0 <= i < decimal(n).len() ==> '0' <= #[trigger] decimal(n)[i] <= '9',
    decreases n,
{
    if n < 10 {
        lemma_digit(n);
        assert(decimal(n).drop_last() =~= Seq::empty());
        assert(number(Seq::empty()) == 0);
    } else {
        law_decimal(n / 10);
        lemma_digit(n % 10);
        assert(decimal(n).drop_last() =~= decimal(n / 10));
    }
}

/// The name of a tensor of a block is `blk.`, digits that stand for the number of the block, a dot
/// and the suffix.
pub proof fn law_block_name(layer: nat, suffix: Seq<char>) -> (digits: Seq<char>)
    ensures
        block_name(layer, suffix) == seq!['b', 'l', 'k', '.'] + digits + seq!['.'] + suffix,
        number(digits) == layer,
        digits.len() > 0,
        layer > 0 ==> digits[0] != '0',
        forall|i: int| 0 <= i < digits.len() ==> '0' <= #[trigger] digits[i] <= '9',
{
    law_decimal(layer);
    reveal_strlit("blk.");
    reveal_strlit(".");
    assert(block_name(layer, suffix) =~= seq!['b', 'l', 'k', '.'] + decimal(layer) + seq!['.']
        + suffix);
    decimal(layer)
}

/// Tensors of different blocks have different names, and so have tensors of one block with
/// different suffixes.
pub proof fn law_block_names_differ(a: nat, b: nat, x: Seq<char>, y: Seq<char>)
    requires
        block_name(a, x) == block_name(b, y),
    ensures
        a == b,
        x == y,
{
    let (p, q) = (law_block_name(a, x), law_block_name(b, y));
    let (s, t) = (block_name(a, x), block_name(b, y));
    assert forall|i: int| 0 <= i < p.len() implies s[4 + i] == #[trigger] p[i] by {}
    assert forall|i: int| 0 <= i < q.len() implies t[4 + i] == #[trigger] q[i] by {}
    assert(s[4 + p.len() as int] == '.');
    assert(t[4 + q.len() as int] == '.');
    if p.len() < q.len() {
        assert(q[p.len() as int] == '.');
    } else if q.len() < p.len() {
        assert(p[q.len() as int] == '.');
    }
    assert(p =~= q) by {
        assert forall|i: int| 0 <= i < p.len() implies p[i] == q[i] by {
            assert(s[4 + i] == t[4 + i]);
        }
    }
    assert(x =~= s.skip(5 + p.len() as int));
    assert(y =~= t.skip(5 + q.len() as int));
}

} // verus!
