use vstd::prelude::*;
use crate::order::OrderType;

verus! {

/// One line of input, read.
#[derive(Debug, PartialEq, Eq)]
pub enum Instruction {
    /// A buy or sell of `quantity`; a limit instruction where `price` is given,
    /// a market instruction where it is not.
    Order { side: OrderType, quantity: i32, price: Option<i32> },
    Exit,
}

/// Why a line is not an instruction.
#[derive(Debug, Clone, Copy, PartialEq, Eq)]
pub enum ParseError {
    NoCommand,
    UnknownCommand,
    NoQuantity,
    InvalidQuantity,
    NonPositiveQuantity,
    InvalidPrice,
    NonPositivePrice,
}

/// ASCII whitespace: space, tab, line feed, vertical tab, form feed, carriage
/// return.
pub open spec fn is_space(b: u8) -> bool {
    b == 32 || (9 <= b && b <= 13)
}

pub open spec fn is_digit(b: u8) -> bool {
    48 <= b && b <= 57
}

/// The first index at or after `i` that does not hold whitespace.
pub open spec fn skip_space(s: Seq<u8>, i: int) -> int
    decreases s.len() - i,
{
    if 0 <= i < s.len() && is_space(s[i]) {
        skip_space(s, i + 1)
    } else {
        i
    }
}

/// The first index at or after `i` that holds whitespace, or the end.
pub open spec fn word_end(s: Seq<u8>, i: int) -> int
    decreases s.len() - i,
{
    if 0 <= i < s.len() && !is_space(s[i]) {
        word_end(s, i + 1)
    } else {
        i
    }
}

/// The word that starts after the whitespace at `i` (empty at the end).
pub open spec fn word(s: Seq<u8>, i: int) -> Seq<u8> {
    s.subrange(skip_space(s, i), word_end(s, skip_space(s, i)))
}

/// Where the word that `word(s, i)` names ends.
pub open spec fn after_word(s: Seq<u8>, i: int) -> int {
    word_end(s, skip_space(s, i))
}

/// Value of a run of decimal digits.
pub open spec fn digits_value(d: Seq<u8>) -> int
    decreases d.len(),
{
    if d.len() == 0 {
        0
    } else {
        digits_value(d.drop_last()) * 10 + (d.last() - 48)
    }
}

pub open spec fn all_digits(d: Seq<u8>) -> bool {
    d.len() > 0 && forall|k: int| 0 <= k < d.len() ==> is_digit(#[trigger] d[k])
}

/// The digits of `t`, after a leading `+` or `-` if there is one.
pub open spec fn unsigned_part(t: Seq<u8>) -> Seq<u8> {
    if t.len() > 0 && (t[0] == 45 || t[0] == 43) {
        t.drop_first()
    } else {
        t
    }
}

/// A decimal integer with an optional `+` or `-` sign, where it is one and
/// fits in an `i32`.
pub open spec fn int_of(t: Seq<u8>) -> Option<int> {
    let d = unsigned_part(t);
    let v = if t.len() > 0 && t[0] == 45 {
        -digits_value(d)
    } else {
        digits_value(d)
    };
    if all_digits(d) && i32::MIN <= v <= i32::MAX {
        Some(v)
    } else {
        None
    }
}

/// The quantity, and the price if there is one, in the two words after `i`.
pub open spec fn quantity_and_price(s: Seq<u8>, i: int) -> Result<(i32, Option<i32>), ParseError> {
    let q = word(s, i);
    let p = word(s, after_word(s, i));
    if q.len() == 0 {
        Err(ParseError::NoQuantity)
    } else if int_of(q) is None {
        Err(ParseError::InvalidQuantity)
    } else if int_of(q)->0 <= 0 {
        Err(ParseError::NonPositiveQuantity)
    } else if p.len() == 0 {
        Ok((int_of(q)->0 as i32, None))
    } else if int_of(p) is None {
        Err(ParseError::InvalidPrice)
    } else if int_of(p)->0 <= 0 {
        Err(ParseError::NonPositivePrice)
    } else {
        Ok((int_of(q)->0 as i32, Some(int_of(p)->0 as i32)))
    }
}

/// A line read as a verb (`BUY`, `SELL` or `EXIT`), a quantity and an
/// optional price; words after the price are ignored.
pub open spec fn instruction_of(s: Seq<u8>) -> Result<Instruction, ParseError> {
    let verb = word(s, 0);
    let rest = after_word(s, 0);
    if verb.len() == 0 {
        Err(ParseError::NoCommand)
    } else if verb == seq![69u8, 88u8, 73u8, 84u8] {
        Ok(Instruction::Exit)
    } else if verb == seq![66u8, 85u8, 89u8] || verb == seq![83u8, 69u8, 76u8, 76u8] {
        let side = if verb == seq![66u8, 85u8, 89u8] {
            OrderType::BUY
        } else {
            OrderType::SELL
        };
        match quantity_and_price(s, rest) {
            Ok((q, p)) => Ok(Instruction::Order { side, quantity: q, price: p }),
            Err(e) => Err(e),
        }
    } else {
        Err(ParseError::UnknownCommand)
    }
}

proof fn lemma_digits_prefix(d: Seq<u8>, j: int)
    requires
        forall|k: int| 0 <= k < d.len() ==> is_digit(#[trigger] d[k]),
        0 <= j <= d.len(),
    ensures
        0 <= digits_value(d.take(j)) <= digits_value(d),
    decreases d.len(),
{
    if j == d.len() {
        assert(d.take(j) =~= d);
        if d.len() > 0 {
            lemma_digits_prefix(d.drop_last(), 0);
        }
    } else {
        let e = d.drop_last();
        assert(e.take(j) =~= d.take(j));
        assert forall|k: int| 0 <= k < e.len() implies is_digit(#[trigger] e[k]) by {
            assert(e[k] == d[k]);
        }
        lemma_digits_prefix(e, j);
        assert(is_digit(d[d.len() - 1]));
    }
}

fn is_space_exec(b: u8) -> (r: bool)
    ensures
        r == is_space(b),
{
    b == 32 || (9 <= b && b <= 13)
}

fn skip_space_exec(s: &[u8], i: usize) -> (r: usize)
    requires
        i <= s@.len(),
    ensures
        r == skip_space(s@, i as int),
        i <= r <= s@.len(),
{
    let mut j: usize = i;
    while j < s.len() && is_space_exec(s[j])
        invariant
            i <= j <= s@.len(),
            skip_space(s@, j as int) == skip_space(s@, i as int),
        decreases s@.len() - j,
    {
        j = j + 1;
    }
    j
}

fn word_end_exec(s: &[u8], i: usize) -> (r: usize)
    requires
        i <= s@.len(),
    ensures
        r == word_end(s@, i as int),
        i <= r <= s@.len(),
{
    let mut j: usize = i;
    while j < s.len() && !is_space_exec(s[j])
        invariant
            i <= j <= s@.len(),
            word_end(s@, j as int) == word_end(s@, i as int),
        decreases s@.len() - j,
    {
        j = j + 1;
    }
    j
}

/// Reads `s[a..e]` as a decimal `i32` with an optional sign.
fn parse_int(s: &[u8], a: usize, e: usize) -> (r: Option<i32>)
    requires
        a <= e <= s@.len(),
    ensures
        r is Some <==> int_of(s@.subrange(a as int, e as int)) is Some,
        r is Some ==> r->0 as int == int_of(s@.subrange(a as int, e as int))->0,
{
    let ghost t = s@.subrange(a as int, e as int);
    if a == e {
        return None;
    }
    let neg = s[a] == 45;
    let signed = s[a] == 45 || s[a] == 43;
    let start: usize = if signed {
        a + 1
    } else {
        a
    };
    let ghost d = s@.subrange(start as int, e as int);
    assert(t[0] == s@[a as int]);
    assert(signed ==> d =~= t.drop_first());
    assert(!signed ==> d =~= t);
    assert(unsigned_part(t) == d);
    if start == e {
        return None;
    }
    let mut acc: i64 = 0;
    let mut k: usize = start;
    while k < e
        invariant
            start <= k <= e <= s@.len(),
            d == s@.subrange(start as int, e as int),
            t == s@.subrange(a as int, e as int),
            t.len() > 0,
            unsigned_part(t) == d,
            acc as int == digits_value(d.take(k - start)),
            forall|m: int| 0 <= m < k - start ==> is_digit(#[trigger] d[m]),
            0 <= acc <= 2147483648,
        decreases e - k,
    {
        let b = s[k];
        assert(b == d[k - start]);
        if b < 48 || b > 57 {
            assert(!is_digit(d[k - start]));
            return None;
        }
        assert(d.take(k - start + 1).drop_last() =~= d.take(k - start));
        assert(d.take(k - start + 1).last() == b);
        let next: i64 = acc * 10 + (b - 48) as i64;
        if next > 2147483648 {
            proof {
                if all_digits(d) {
                    lemma_digits_prefix(d, k - start + 1);
                }
            }
            return None;
        }
        acc = next;
        k = k + 1;
    }
    assert(d.take(d.len() as int) =~= d);
    if neg {
        Some((-acc) as i32)
    } else if acc > 2147483647 {
        None
    } else {
        Some(acc as i32)
    }
}

/// Reads the quantity, and the price if there is one, from the two words of
/// `s` after index `i`.
pub fn read_in_quantity_and_price(s: &[u8], i: usize) -> (r: Result<(i32, Option<i32>), ParseError>)
    requires
        i <= s@.len(),
    ensures
        r == quantity_and_price(s@, i as int),
{
    let qa = skip_space_exec(s, i);
    let qe = word_end_exec(s, qa);
    let pa = skip_space_exec(s, qe);
    let pe = word_end_exec(s, pa);
    if qa == qe {
        return Err(ParseError::NoQuantity);
    }
    let quantity = match parse_int(s, qa, qe) {
        None => return Err(ParseError::InvalidQuantity),
        Some(q) => q,
    };
    if quantity <= 0 {
        return Err(ParseError::NonPositiveQuantity);
    }
    if pa == pe {
        return Ok((quantity, None));
    }
    let price = match parse_int(s, pa, pe) {
        None => return Err(ParseError::InvalidPrice),
        Some(p) => p,
    };
    if price <= 0 {
        return Err(ParseError::NonPositivePrice);
    }
    Ok((quantity, Some(price)))
}

/// `s[a..e]` holds exactly the bytes of `lit`.
fn word_is(s: &[u8], a: usize, e: usize, lit: &Vec<u8>) -> (r: bool)
    requires
        a <= e <= s@.len(),
    ensures
        r == (s@.subrange(a as int, e as int) == lit@),
{
    if e - a != lit.len() {
        return false;
    }
    let mut k: usize = 0;
    while k < lit.len()
        invariant
            e - a == lit@.len(),
            a <= e <= s@.len(),
            k <= lit@.len(),
            forall|m: int| 0 <= m < k ==> s@[a + m] == #[trigger] lit@[m],
        decreases lit@.len() - k,
    {
        if s[a + k] != lit[k] {
            assert(s@.subrange(a as int, e as int)[k as int] != lit@[k as int]);
            return false;
        }
        k = k + 1;
    }
    assert(s@.subrange(a as int, e as int) =~= lit@);
    true
}

/// Reads one line: a verb (`BUY`, `SELL` or `EXIT`), then for `BUY` and
/// `SELL` a positive quantity and an optional positive price.
pub fn parse_instruction(s: &[u8]) -> (r: Result<Instruction, ParseError>)
    ensures
        r == instruction_of(s@),
{
    let va = skip_space_exec(s, 0);
    let ve = word_end_exec(s, va);
    if va == ve {
        return Err(ParseError::NoCommand);
    }
    let mut exit: Vec<u8> = Vec::new();
    exit.push(69);
    exit.push(88);
    exit.push(73);
    exit.push(84);
    let mut buy: Vec<u8> = Vec::new();
    buy.push(66);
    buy.push(85);
    buy.push(89);
    let mut sell: Vec<u8> = Vec::new();
    sell.push(83);
    sell.push(69);
    sell.push(76);
    sell.push(76);
    assert(exit@ =~= seq![69u8, 88u8, 73u8, 84u8]);
    assert(buy@ =~= seq![66u8, 85u8, 89u8]);
    assert(sell@ =~= seq![83u8, 69u8, 76u8, 76u8]);
    if word_is(s, va, ve, &exit) {
        return Ok(Instruction::Exit);
    }
    let side = if word_is(s, va, ve, &buy) {
        OrderType::BUY
    } else if word_is(s, va, ve, &sell) {
        OrderType::SELL
    } else {
        return Err(ParseError::UnknownCommand);
    };
    match read_in_quantity_and_price(s, ve) {
        Ok((quantity, price)) => Ok(Instruction::Order { side, quantity, price }),
        Err(e) => Err(e),
    }
}

} // verus!
