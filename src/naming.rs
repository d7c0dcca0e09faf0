use vstd::prelude::*;
use vstd::string::StringExecFns;
use vstd::string::StrSliceExecFns;
use crate::augmentation::{AugmentationPrefix, is_member_name};

verus! {

/// The letters a numeral may be written with.
pub open spec fn is_numeral_letter(c: char) -> bool {
    c == 'I' || c == 'V' || c == 'X' || c == 'L' || c == 'C' || c == 'D' || c == 'M'
}

/// A non-empty run of numeral letters; not necessarily a well-formed numeral.
pub open spec fn is_numeral_run(s: Seq<char>) -> bool {
    s.len() > 0 && forall|i: int| 0 <= i < s.len() ==> is_numeral_letter(#[trigger] s[i])
}

/// `name` is `prefix`, then `identifier`, one space, and a run of numeral letters.
pub open spec fn labelled_with(name: Seq<char>, prefix: Seq<char>, identifier: Seq<char>) -> bool {
    let head = prefix + identifier + seq![' '];
    &&& name.len() > head.len()
    &&& name.subrange(0, head.len() as int) == head
    &&& is_numeral_run(name.subrange(head.len() as int, name.len() as int))
}

/// The roman numeral for `n`: the largest of the thirteen values M, CM, D,
/// CD, C, XC, L, XL, X, IX, V, IV, I that fits, then the numeral for the rest.
#[verifier::opaque]
pub open spec fn roman_numeral(n: nat) -> Seq<char>
    decreases n,
{
    if n >= 1000 {
        seq!['M'] + roman_numeral((n - 1000) as nat)
    } else if n >= 900 {
        seq!['C', 'M'] + roman_numeral((n - 900) as nat)
    } else if n >= 500 {
        seq!['D'] + roman_numeral((n - 500) as nat)
    } else if n >= 400 {
        seq!['C', 'D'] + roman_numeral((n - 400) as nat)
    } else if n >= 100 {
        seq!['C'] + roman_numeral((n - 100) as nat)
    } else if n >= 90 {
        seq!['X', 'C'] + roman_numeral((n - 90) as nat)
    } else if n >= 50 {
        seq!['L'] + roman_numeral((n - 50) as nat)
    } else if n >= 40 {
        seq!['X', 'L'] + roman_numeral((n - 40) as nat)
    } else if n >= 10 {
        seq!['X'] + roman_numeral((n - 10) as nat)
    } else if n >= 9 {
        seq!['I', 'X'] + roman_numeral((n - 9) as nat)
    } else if n >= 5 {
        seq!['V'] + roman_numeral((n - 5) as nat)
    } else if n >= 4 {
        seq!['I', 'V'] + roman_numeral((n - 4) as nat)
    } else if n >= 1 {
        seq!['I'] + roman_numeral((n - 1) as nat)
    } else {
        seq![]
    }
}

/// The first numerals: I, II, III.
pub proof fn lemma_small_numerals()
    ensures
        roman_numeral(1) == seq!['I'],
        roman_numeral(2) == seq!['I', 'I'],
        roman_numeral(3) == seq!['I', 'I', 'I'],
{
    reveal_with_fuel(roman_numeral, 4);
    assert(roman_numeral(1) =~= seq!['I']);
    assert(roman_numeral(2) =~= seq!['I', 'I']);
    assert(roman_numeral(3) =~= seq!['I', 'I', 'I']);
}

/// Every numeral of a positive number is a run of numeral letters.
pub proof fn lemma_roman_numeral_letters(n: nat)
    requires
        n >= 1,
    ensures
        is_numeral_run(roman_numeral(n)),
    decreases n, 1nat,
{
    reveal(roman_numeral);
    let r = roman_numeral(n);
    assert(r.len() > 0);
    if n >= 1000 { lemma_tail_letters(seq!['M'], (n - 1000) as nat); }
    else if n >= 900 { lemma_tail_letters(seq!['C', 'M'], (n - 900) as nat); }
    else if n >= 500 { lemma_tail_letters(seq!['D'], (n - 500) as nat); }
    else if n >= 400 { lemma_tail_letters(seq!['C', 'D'], (n - 400) as nat); }
    else if n >= 100 { lemma_tail_letters(seq!['C'], (n - 100) as nat); }
    else if n >= 90 { lemma_tail_letters(seq!['X', 'C'], (n - 90) as nat); }
    else if n >= 50 { lemma_tail_letters(seq!['L'], (n - 50) as nat); }
    else if n >= 40 { lemma_tail_letters(seq!['X', 'L'], (n - 40) as nat); }
    else if n >= 10 { lemma_tail_letters(seq!['X'], (n - 10) as nat); }
    else if n >= 9 { lemma_tail_letters(seq!['I', 'X'], (n - 9) as nat); }
    else if n >= 5 { lemma_tail_letters(seq!['V'], (n - 5) as nat); }
    else if n >= 4 { lemma_tail_letters(seq!['I', 'V'], (n - 4) as nat); }
    else { lemma_tail_letters(seq!['I'], (n - 1) as nat); }
}

proof fn lemma_tail_letters(head: Seq<char>, rest: nat)
    requires
        head.len() > 0,
        forall|i: int| 0 <= i < head.len() ==> is_numeral_letter(#[trigger] head[i]),
    ensures
        is_numeral_run(head + roman_numeral(rest)),
    decreases rest, 2nat,
{
    reveal(roman_numeral);
    if rest >= 1 {
        lemma_roman_numeral_letters(rest);
    }
    let whole = head + roman_numeral(rest);
    assert forall|i: int| 0 <= i < whole.len() implies is_numeral_letter(#[trigger] whole[i]) by {
        if i >= head.len() {
            assert(whole[i] == roman_numeral(rest)[i - head.len()]);
        }
    }
}

/// Relies on roman::to: it returns `Some` exactly for 1..=3999, holding the
/// greedy numeral over its thirteen (text, value) pairs.
#[verifier::external_body]
fn to_roman(n: i32) -> (r: Option<String>)
    ensures
        r is Some <==> 1 <= n <= 3999,
        r matches Some(s) ==> s@ == roman_numeral(n as nat),
{
    roman::to(n)
}

/// Relies on String::push: appends one character.
#[verifier::external_body]
pub(crate) fn push_char(s: &mut String, c: char)
    ensures
        final(s)@ == old(s)@.push(c),
{
    s.push(c)
}

/// Whether two texts are equal, character by character.
pub fn same_text(a: &str, b: &str) -> (r: bool)
    ensures
        r == (a@ == b@),
{
    let n = a.unicode_len();
    if n != b.unicode_len() {
        return false;
    }
    let mut i: usize = 0;
    while i < n
        invariant
            n == a@.len(),
            n == b@.len(),
            i <= n,
            forall|j: int| 0 <= j < i ==> a@[j] == b@[j],
        decreases n - i,
    {
        if a.get_char(i) != b.get_char(i) {
            return false;
        }
        i = i + 1;
    }
    assert(a@ =~= b@);
    true
}

/// Decimal digits of `n`, most significant first, without leading zeros.
pub open spec fn decimal_of(n: nat) -> Seq<char>
    decreases n,
{
    if n < 10 {
        seq![digit_char(n)]
    } else {
        decimal_of(n / 10).push(digit_char(n % 10))
    }
}

pub open spec fn digit_char(d: nat) -> char {
    ((d + '0' as nat) as u32) as char
}

/// Writes `n` in decimal.
pub fn decimal_string(n: u64) -> (r: String)
    ensures
        r@ == decimal_of(n as nat),
    decreases n,
{
    if n < 10 {
        let mut s = String::new();
        push_char(&mut s, digit(n));
        s
    } else {
        let mut s = decimal_string(n / 10);
        push_char(&mut s, digit(n % 10));
        s
    }
}

fn digit(d: u64) -> (c: char)
    requires
        d < 10,
    ensures
        c == digit_char(d as nat),
{
    if d == 0 { '0' } else if d == 1 { '1' } else if d == 2 { '2' } else if d == 3 { '3' }
    else if d == 4 { '4' } else if d == 5 { '5' } else if d == 6 { '6' } else if d == 7 { '7' }
    else if d == 8 { '8' } else { '9' }
}

/// The numeral written after a member's identifier for 1-based `n`: the
/// roman numeral where one exists, else plain decimal digits.
pub open spec fn numeral_text(n: nat) -> Seq<char> {
    if 1 <= n <= 3999 {
        roman_numeral(n)
    } else {
        decimal_of(n)
    }
}

pub fn numeral(n: usize) -> (r: String)
    ensures
        r@ == numeral_text(n as nat),
        1 <= n <= 3999 ==> is_numeral_run(r@),
{
    proof {
        if 1 <= n <= 3999 {
            lemma_roman_numeral_letters(n as nat);
        }
    }
    if n <= 0x7fff_ffff {
        match to_roman(n as i32) {
            Some(text) => text,
            None => decimal_string(n as u64),
        }
    } else {
        decimal_string(n as u64)
    }
}

/// The prefix that the member at 0-based `position` of `total` carries.
pub open spec fn prefix_at(prefix: AugmentationPrefix, position: int, total: int) -> Seq<char> {
    if position == 0 {
        prefix.first@
    } else if position == total - 1 {
        prefix.last@
    } else {
        prefix.middle@
    }
}

/// A member name: `lead`, the identifier, a space and the numeral for `n`.
pub open spec fn member_name(lead: Seq<char>, identifier: Seq<char>, n: nat) -> Seq<char> {
    lead + identifier + seq![' '] + numeral_text(n)
}

/// The label of the member at 0-based `position` in a pool of `total`.
pub open spec fn label_at(prefix: AugmentationPrefix, identifier: Seq<char>, position: int, total: int) -> Seq<char> {
    member_name(prefix_at(prefix, position, total), identifier, (position + 1) as nat)
}

/// Builds `lead`, the identifier, a space and the numeral for `n`.
pub fn name_with(lead: &str, identifier: &str, n: usize) -> (r: String)
    ensures
        r@ == member_name(lead@, identifier@, n as nat),
        1 <= n <= 3999 ==> labelled_with(r@, lead@, identifier@),
{
    let mut s = String::from_str(lead);
    s.append(identifier);
    push_char(&mut s, ' ');
    let text = numeral(n);
    s.append(text.as_str());
    proof {
        if 1 <= n <= 3999 {
            lemma_member_name_shape(lead@, identifier@, n as nat);
        }
    }
    s
}

/// The label of the member at 0-based `position` in a pool of `total`.
pub fn label_for(position: usize, total: usize, prefix: &AugmentationPrefix, identifier: &str) -> (r: String)
    requires
        position < total,
    ensures
        r@ == label_at(*prefix, identifier@, position as int, total as int),
        position < 3999 ==> is_member_name(*prefix, identifier@, r@),
{
    let lead = if position == 0 {
        prefix.first.as_str()
    } else if position == total - 1 {
        prefix.last.as_str()
    } else {
        prefix.middle.as_str()
    };
    name_with(lead, identifier, position + 1)
}

proof fn lemma_member_name_shape(lead: Seq<char>, identifier: Seq<char>, n: nat)
    requires
        is_numeral_run(numeral_text(n)),
    ensures
        labelled_with(member_name(lead, identifier, n), lead, identifier),
{
    let name = member_name(lead, identifier, n);
    let head = lead + identifier + seq![' '];
    assert(name.subrange(0, head.len() as int) =~= head);
    assert(name.subrange(head.len() as int, name.len() as int) =~= numeral_text(n));
}

/// For a valid 0-based position, the label carries the first prefix at the
/// front of the pool, the last at its end and the middle one in between,
/// followed by the identifier, a space and the numeral of `position + 1`.
/// (That the matcher recognises it up to position 3998 is stated by
/// `label_for`, which builds it.)
pub proof fn lemma_label_prefix(prefix: AugmentationPrefix, identifier: Seq<char>, position: int, total: int)
    requires
        0 <= position < total,
    ensures
        position == 0 ==> label_at(prefix, identifier, position, total) == member_name(prefix.first@, identifier, 1),
        position != 0 && position == total - 1 ==> label_at(prefix, identifier, position, total)
            == member_name(prefix.last@, identifier, (position + 1) as nat),
        0 < position < total - 1 ==> label_at(prefix, identifier, position, total)
            == member_name(prefix.middle@, identifier, (position + 1) as nat),
{
}

} // verus!
