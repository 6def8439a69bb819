//! The encoder: fixed tables from the mnemonics of a compute instruction to
//! their bit fields.
use vstd::prelude::*;

use crate::text::{chars_of, is_word, string_of};

verus! {

/// The base-2 digits of `n mod 2^width`, most significant first.
pub open spec fn digits(n: nat, width: nat) -> Seq<nat>
    decreases width,
{
    if width == 0 {
        Seq::empty()
    } else {
        digits(n / 2, (width - 1) as nat).push(n % 2)
    }
}

/// The character that writes a binary digit.
pub open spec fn digit_char(d: nat) -> char {
    if d == 0 {
        '0'
    } else {
        '1'
    }
}

/// `n mod 2^width` written in binary with exactly `width` characters.
pub open spec fn binary(n: nat, width: nat) -> Seq<char> {
    digits(n, width).map_values(|d: nat| digit_char(d))
}

/// The 3-bit code of a destination mnemonic.
pub open spec fn dest_code(m: Seq<char>) -> Option<nat> {
    if m.len() == 0 { Some(0) }
    else if m =~= seq!['M'] { Some(1) }
    else if m =~= seq!['D'] { Some(2) }
    else if m =~= seq!['M', 'D'] { Some(3) }
    else if m =~= seq!['A'] { Some(4) }
    else if m =~= seq!['A', 'M'] { Some(5) }
    else if m =~= seq!['A', 'D'] { Some(6) }
    else if m =~= seq!['A', 'M', 'D'] { Some(7) }
    else { None }
}

/// The 3-bit code of a jump mnemonic.
pub open spec fn jump_code(m: Seq<char>) -> Option<nat> {
    if m.len() == 0 { Some(0) }
    else if m =~= seq!['J', 'G', 'T'] { Some(1) }
    else if m =~= seq!['J', 'E', 'Q'] { Some(2) }
    else if m =~= seq!['J', 'G', 'E'] { Some(3) }
    else if m =~= seq!['J', 'L', 'T'] { Some(4) }
    else if m =~= seq!['J', 'N', 'E'] { Some(5) }
    else if m =~= seq!['J', 'L', 'E'] { Some(6) }
    else if m =~= seq!['J', 'M', 'P'] { Some(7) }
    else { None }
}

/// The 7-bit code of a computation mnemonic: the operand bit (A or M)
/// followed by the six function bits.
pub open spec fn comp_code(m: Seq<char>) -> Option<nat> {
    if m =~= seq!['0'] { Some(0b0101010) }
    else if m =~= seq!['1'] { Some(0b0111111) }
    else if m =~= seq!['-', '1'] { Some(0b0111010) }
    else if m =~= seq!['D'] { Some(0b0001100) }
    else if m =~= seq!['A'] { Some(0b0110000) }
    else if m =~= seq!['!', 'D'] { Some(0b0001101) }
    else if m =~= seq!['!', 'A'] { Some(0b0110001) }
    else if m =~= seq!['-', 'D'] { Some(0b0001111) }
    else if m =~= seq!['-', 'A'] { Some(0b0110011) }
    else if m =~= seq!['D', '+', '1'] { Some(0b0011111) }
    else if m =~= seq!['A', '+', '1'] { Some(0b0110111) }
    else if m =~= seq!['D', '-', '1'] { Some(0b0001110) }
    else if m =~= seq!['A', '-', '1'] { Some(0b0110010) }
    else if m =~= seq!['D', '+', 'A'] { Some(0b0000010) }
    else if m =~= seq!['D', '-', 'A'] { Some(0b0010011) }
    else if m =~= seq!['A', '-', 'D'] { Some(0b0000111) }
    else if m =~= seq!['D', '&', 'A'] { Some(0b0000000) }
    else if m =~= seq!['D', '|', 'A'] { Some(0b0010101) }
    else if m =~= seq!['M'] { Some(0b1110000) }
    else if m =~= seq!['!', 'M'] { Some(0b1110001) }
    else if m =~= seq!['-', 'M'] { Some(0b1110011) }
    else if m =~= seq!['M', '+', '1'] { Some(0b1110111) }
    else if m =~= seq!['M', '-', '1'] { Some(0b1110010) }
    else if m =~= seq!['D', '+', 'M'] { Some(0b1000010) }
    else if m =~= seq!['D', '-', 'M'] { Some(0b1010011) }
    else if m =~= seq!['M', '-', 'D'] { Some(0b1000111) }
    else if m =~= seq!['D', '&', 'M'] { Some(0b1000000) }
    else if m =~= seq!['D', '|', 'M'] { Some(0b1010101) }
    else { None }
}

/// The field that an encoding table gives for a mnemonic, as text.
pub open spec fn field_text(code: Option<nat>, width: nat) -> Option<Seq<char>> {
    match code {
        Some(n) => Some(binary(n, width)),
        None => None,
    }
}

/// `2^w`.
pub open spec fn power_of_two(w: nat) -> nat
    decreases w,
{
    if w == 0 {
        1
    } else {
        2 * power_of_two((w - 1) as nat)
    }
}

/// `binary(n, width)` has `width` characters.
pub proof fn lemma_binary_len(n: nat, width: nat)
    ensures
        binary(n, width).len() == width,
    decreases width,
{
    if width > 0 {
        lemma_binary_len(n / 2, (width - 1) as nat);
    }
}

/// Below `2^width`, different numbers are written differently.
pub proof fn lemma_binary_injective(a: nat, b: nat, width: nat)
    requires
        a < power_of_two(width),
        b < power_of_two(width),
        binary(a, width) == binary(b, width),
    ensures
        a == b,
    decreases width,
{
    if width > 0 {
        let w1 = (width - 1) as nat;
        lemma_binary_len(a / 2, w1);
        lemma_binary_len(b / 2, w1);
        assert(binary(a, width) =~= binary(a / 2, w1).push(digit_char(a % 2)));
        assert(binary(b, width) =~= binary(b / 2, w1).push(digit_char(b % 2)));
        assert(binary(a, width).last() == digit_char(a % 2));
        assert(binary(b, width).last() == digit_char(b % 2));
        assert(binary(a / 2, w1) =~= binary(a, width).drop_last());
        assert(binary(b / 2, w1) =~= binary(b, width).drop_last());
        lemma_binary_injective(a / 2, b / 2, w1);
    }
}

/// The destination table is one to one: different mnemonics get different
/// three-bit fields.
pub proof fn lemma_dest_codes_distinct(m1: Seq<char>, m2: Seq<char>)
    requires
        dest_code(m1) is Some,
        dest_code(m2) is Some,
        m1 != m2,
    ensures
        binary(dest_code(m1)->0, 3).len() == 3,
        binary(dest_code(m1)->0, 3) != binary(dest_code(m2)->0, 3),
{
    lemma_binary_len(dest_code(m1)->0, 3);
    if m1.len() == 0 && m2.len() == 0 {
        assert(m1 =~= m2);
    }
    reveal_with_fuel(power_of_two, 4);
    if binary(dest_code(m1)->0, 3) == binary(dest_code(m2)->0, 3) {
        lemma_binary_injective(dest_code(m1)->0, dest_code(m2)->0, 3);
    }
}

/// The jump table is one to one: different mnemonics get different
/// three-bit fields.
pub proof fn lemma_jump_codes_distinct(m1: Seq<char>, m2: Seq<char>)
    requires
        jump_code(m1) is Some,
        jump_code(m2) is Some,
        m1 != m2,
    ensures
        binary(jump_code(m1)->0, 3).len() == 3,
        binary(jump_code(m1)->0, 3) != binary(jump_code(m2)->0, 3),
{
    lemma_binary_len(jump_code(m1)->0, 3);
    if m1.len() == 0 && m2.len() == 0 {
        assert(m1 =~= m2);
    }
    reveal_with_fuel(power_of_two, 4);
    if binary(jump_code(m1)->0, 3) == binary(jump_code(m2)->0, 3) {
        lemma_binary_injective(jump_code(m1)->0, jump_code(m2)->0, 3);
    }
}

/// The computation table is one to one: different mnemonics get different
/// seven-bit fields.
pub proof fn lemma_comp_codes_distinct(m1: Seq<char>, m2: Seq<char>)
    requires
        comp_code(m1) is Some,
        comp_code(m2) is Some,
        m1 != m2,
    ensures
        binary(comp_code(m1)->0, 7).len() == 7,
        binary(comp_code(m1)->0, 7) != binary(comp_code(m2)->0, 7),
{
    lemma_binary_len(comp_code(m1)->0, 7);
    reveal_with_fuel(power_of_two, 8);
    if binary(comp_code(m1)->0, 7) == binary(comp_code(m2)->0, 7) {
        lemma_binary_injective(comp_code(m1)->0, comp_code(m2)->0, 7);
    }
}

/// `n` written in binary with `width` characters.
pub fn binary_string(n: u16, width: usize) -> (r: String)
    requires
        width <= 16,
    ensures
        r@ == binary(n as nat, width as nat),
{
    let mut v: Vec<char> = Vec::new();
    let mut k: usize = 0;
    while k < width
        invariant
            k <= width,
            v.len() == k,
        decreases width - k,
    {
        v.push('0');
        k += 1;
    }
    let mut m: u16 = n;
    while k > 0
        invariant
            k <= width == v.len(),
            binary(n as nat, width as nat) == binary(m as nat, k as nat) + v@.subrange(
                k as int,
                width as int,
            ),
        decreases k,
    {
        let d: char = if m % 2 == 0 { '0' } else { '1' };
        let ghost tail = v@.subrange(k as int, width as int);
        proof {
            let ds = digits((m / 2) as nat, (k - 1) as nat);
            assert(digits(m as nat, k as nat) == ds.push((m % 2) as nat));
            assert(binary(m as nat, k as nat) =~= binary((m / 2) as nat, (k - 1) as nat).push(d));
        }
        v.set(k - 1, d);
        assert(v@.subrange(k - 1, width as int) =~= seq![d] + tail);
        assert(binary(n as nat, width as nat) =~= binary((m / 2) as nat, (k - 1) as nat)
            + v@.subrange(k - 1, width as int));
        m = m / 2;
        k -= 1;
    }
    assert(binary(m as nat, 0) =~= Seq::<char>::empty());
    assert(v@.subrange(0, width as int) =~= v@);
    string_of(&v, 0, width)
}

/// The encoding tables of the Hack instruction set.
pub struct Code {}

impl Code {
    /// The three bits of a destination mnemonic, or `None` when it is not one.
    pub fn dest(monic: &str) -> (r: Option<String>)
        ensures
            r matches Some(s) ==> field_text(dest_code(monic@), 3) == Some(s@),
            r is None <==> dest_code(monic@) is None,
    {
        let m = chars_of(monic);
        let code: u16 = if m.len() == 0 { 0 }
            else if is_word(&m, &['M']) { 1 }
            else if is_word(&m, &['D']) { 2 }
            else if is_word(&m, &['M', 'D']) { 3 }
            else if is_word(&m, &['A']) { 4 }
            else if is_word(&m, &['A', 'M']) { 5 }
            else if is_word(&m, &['A', 'D']) { 6 }
            else if is_word(&m, &['A', 'M', 'D']) { 7 }
            else { return None };
        Some(binary_string(code, 3))
    }

    /// The seven bits of a computation mnemonic, or `None` when it is not one.
    pub fn comp(monic: &str) -> (r: Option<String>)
        ensures
            r matches Some(s) ==> field_text(comp_code(monic@), 7) == Some(s@),
            r is None <==> comp_code(monic@) is None,
    {
        let m = chars_of(monic);
        let code: u16 = if is_word(&m, &['0']) { 0b0101010 }
            else if is_word(&m, &['1']) { 0b0111111 }
            else if is_word(&m, &['-', '1']) { 0b0111010 }
            else if is_word(&m, &['D']) { 0b0001100 }
            else if is_word(&m, &['A']) { 0b0110000 }
            else if is_word(&m, &['!', 'D']) { 0b0001101 }
            else if is_word(&m, &['!', 'A']) { 0b0110001 }
            else if is_word(&m, &['-', 'D']) { 0b0001111 }
            else if is_word(&m, &['-', 'A']) { 0b0110011 }
            else if is_word(&m, &['D', '+', '1']) { 0b0011111 }
            else if is_word(&m, &['A', '+', '1']) { 0b0110111 }
            else if is_word(&m, &['D', '-', '1']) { 0b0001110 }
            else if is_word(&m, &['A', '-', '1']) { 0b0110010 }
            else if is_word(&m, &['D', '+', 'A']) { 0b0000010 }
            else if is_word(&m, &['D', '-', 'A']) { 0b0010011 }
            else if is_word(&m, &['A', '-', 'D']) { 0b0000111 }
            else if is_word(&m, &['D', '&', 'A']) { 0b0000000 }
            else if is_word(&m, &['D', '|', 'A']) { 0b0010101 }
            else if is_word(&m, &['M']) { 0b1110000 }
            else if is_word(&m, &['!', 'M']) { 0b1110001 }
            else if is_word(&m, &['-', 'M']) { 0b1110011 }
            else if is_word(&m, &['M', '+', '1']) { 0b1110111 }
            else if is_word(&m, &['M', '-', '1']) { 0b1110010 }
            else if is_word(&m, &['D', '+', 'M']) { 0b1000010 }
            else if is_word(&m, &['D', '-', 'M']) { 0b1010011 }
            else if is_word(&m, &['M', '-', 'D']) { 0b1000111 }
            else if is_word(&m, &['D', '&', 'M']) { 0b1000000 }
            else if is_word(&m, &['D', '|', 'M']) { 0b1010101 }
            else { return None };
        Some(binary_string(code, 7))
    }

    /// The three bits of a jump mnemonic, or `None` when it is not one.
    pub fn jump(monic: &str) -> (r: Option<String>)
        ensures
            r matches Some(s) ==> field_text(jump_code(monic@), 3) == Some(s@),
            r is None <==> jump_code(monic@) is None,
    {
        let m = chars_of(monic);
        let code: u16 = if m.len() == 0 { 0 }
            else if is_word(&m, &['J', 'G', 'T']) { 1 }
            else if is_word(&m, &['J', 'E', 'Q']) { 2 }
            else if is_word(&m, &['J', 'G', 'E']) { 3 }
            else if is_word(&m, &['J', 'L', 'T']) { 4 }
            else if is_word(&m, &['J', 'N', 'E']) { 5 }
            else if is_word(&m, &['J', 'L', 'E']) { 6 }
            else if is_word(&m, &['J', 'M', 'P']) { 7 }
            else { return None };
        Some(binary_string(code, 3))
    }
}

} // verus!
