//! The two passes that turn assembly text into binary text.
use vstd::prelude::*;

use crate::code::{
    binary, comp_code, dest_code, digit_char, digits, jump_code, lemma_binary_len, Code,
};
use crate::parser::{
    command_kind, commands, comp_field, dest_field, jump_field, symbol_field, CommandType, Parser,
};
use crate::symbol_table::SymbolTable;
use crate::text::{chars_of, push_char};

verus! {

/// Names whose addresses are fixed before any program is read.
pub open spec fn predefined() -> Map<Seq<char>, nat> {
    map![
        seq!['S', 'P'] => 0,
        seq!['L', 'C', 'L'] => 1,
        seq!['A', 'R', 'G'] => 2,
        seq!['T', 'H', 'I', 'S'] => 3,
        seq!['T', 'H', 'A', 'T'] => 4,
        seq!['R', '0'] => 0,
        seq!['R', '1'] => 1,
        seq!['R', '2'] => 2,
        seq!['R', '3'] => 3,
        seq!['R', '4'] => 4,
        seq!['R', '5'] => 5,
        seq!['R', '6'] => 6,
        seq!['R', '7'] => 7,
        seq!['R', '8'] => 8,
        seq!['R', '9'] => 9,
        seq!['R', '1', '0'] => 10,
        seq!['R', '1', '1'] => 11,
        seq!['R', '1', '2'] => 12,
        seq!['R', '1', '3'] => 13,
        seq!['R', '1', '4'] => 14,
        seq!['R', '1', '5'] => 15,
        seq!['S', 'C', 'R', 'E', 'E', 'N'] => 16384,
        seq!['K', 'B', 'D'] => 24576
    ]
}

/// Whether a command becomes an instruction word.
pub open spec fn is_instruction(c: Seq<char>) -> bool {
    command_kind(c) == CommandType::A || command_kind(c) == CommandType::C
}

/// How many of `cmds` become instruction words.
pub open spec fn instruction_count(cmds: Seq<Seq<char>>) -> nat
    decreases cmds.len(),
{
    if cmds.len() == 0 {
        0
    } else if is_instruction(cmds.last()) {
        instruction_count(cmds.drop_last()) + 1
    } else {
        instruction_count(cmds.drop_last())
    }
}

/// The table after the first pass: the predefined names, and each label
/// with the address of the instruction that follows it. A later label of
/// the same name replaces an earlier one.
pub open spec fn label_table(cmds: Seq<Seq<char>>) -> Map<Seq<char>, nat>
    decreases cmds.len(),
{
    if cmds.len() == 0 {
        predefined()
    } else {
        let t = label_table(cmds.drop_last());
        let c = cmds.last();
        if command_kind(c) == CommandType::L {
            t.insert(symbol_field(c), instruction_count(cmds.drop_last()))
        } else {
            t
        }
    }
}

/// A decimal digit.
pub open spec fn is_digit(c: char) -> bool {
    '0' <= c <= '9'
}

/// The value of a string of decimal digits.
pub open spec fn decimal_value(s: Seq<char>) -> nat
    decreases s.len(),
{
    if s.len() == 0 {
        0
    } else {
        decimal_value(s.drop_last()) * 10 + ((s.last() as u32) - ('0' as u32)) as nat
    }
}

/// Whether `s` has a leading sign.
pub open spec fn has_sign(s: Seq<char>) -> bool {
    s.len() > 0 && (s[0] == '-' || s[0] == '+')
}

/// The digits of a number: `s` without its sign.
pub open spec fn unsigned_part(s: Seq<char>) -> Seq<char> {
    if has_sign(s) {
        s.drop_first()
    } else {
        s
    }
}

/// Whether `s` is one or more decimal digits.
pub open spec fn all_digits(s: Seq<char>) -> bool {
    s.len() > 0 && forall|i: int| 0 <= i < s.len() ==> is_digit(#[trigger] s[i])
}

/// The value of `s` as a signed decimal number.
pub open spec fn signed_value(s: Seq<char>) -> int {
    if has_sign(s) && s[0] == '-' {
        -decimal_value(unsigned_part(s))
    } else {
        decimal_value(unsigned_part(s)) as int
    }
}

/// `s` read as a 16-bit signed decimal number: an optional sign and at
/// least one digit, with a value in `-32768..=32767`.
pub open spec fn parse_i16(s: Seq<char>) -> Option<int> {
    if all_digits(unsigned_part(s)) && -32768 <= signed_value(s) <= 32767 {
        Some(signed_value(s))
    } else {
        None
    }
}

/// An `@` command whose operand is neither a number nor a name in `known`.
pub open spec fn is_variable_use(c: Seq<char>, known: Map<Seq<char>, nat>) -> bool {
    &&& command_kind(c) == CommandType::A
    &&& parse_i16(symbol_field(c)) is None
    &&& !known.contains_key(symbol_field(c))
}

/// The variables of `cmds`, in the order of their first use.
pub open spec fn variables(cmds: Seq<Seq<char>>, known: Map<Seq<char>, nat>) -> Seq<Seq<char>>
    decreases cmds.len(),
{
    if cmds.len() == 0 {
        Seq::empty()
    } else {
        let vs = variables(cmds.drop_last(), known);
        let c = cmds.last();
        if is_variable_use(c, known) && !vs.contains(symbol_field(c)) {
            vs.push(symbol_field(c))
        } else {
            vs
        }
    }
}

/// The address of variable number `i`.
pub open spec fn variable_address(i: int) -> int {
    16 + i
}

/// The value an `@` operand stands for: a number, a name of `known`, or a
/// variable.
pub open spec fn operand_value(s: Seq<char>, known: Map<Seq<char>, nat>, vars: Seq<Seq<char>>) -> int {
    match parse_i16(s) {
        Some(v) => v,
        None => if known.contains_key(s) {
            known[s] as int
        } else {
            variable_address(vars.index_of(s))
        },
    }
}

/// The word of an `@` command: the low 15 bits of its value, after a 0.
pub open spec fn address_word(v: int) -> Seq<char> {
    binary((v % 32768) as nat, 16)
}

/// The word of a compute command, when its three mnemonics are known.
pub open spec fn compute_word(c: Seq<char>) -> Option<Seq<char>> {
    match (comp_code(comp_field(c)), dest_code(dest_field(c)), jump_code(jump_field(c))) {
        (Some(x), Some(d), Some(j)) => Some(
            seq!['1', '1', '1'] + binary(x, 7) + binary(d, 3) + binary(j, 3),
        ),
        _ => None,
    }
}

/// The instruction words of `cmds`, or `None` when one of them is invalid
/// or names an unknown mnemonic.
pub open spec fn words(cmds: Seq<Seq<char>>, known: Map<Seq<char>, nat>, vars: Seq<Seq<char>>) -> Option<Seq<Seq<char>>>
    decreases cmds.len(),
{
    if cmds.len() == 0 {
        Some(Seq::empty())
    } else {
        match words(cmds.drop_last(), known, vars) {
            None => None,
            Some(ws) => {
                let c = cmds.last();
                match command_kind(c) {
                    CommandType::A => Some(ws.push(address_word(operand_value(symbol_field(c), known, vars)))),
                    CommandType::C => match compute_word(c) {
                        Some(w) => Some(ws.push(w)),
                        None => None,
                    },
                    CommandType::L => Some(ws),
                    CommandType::Invalid => None,
                }
            },
        }
    }
}

/// The instruction words of a source text.
pub open spec fn program_words(src: Seq<char>) -> Option<Seq<Seq<char>>> {
    let cmds = commands(src);
    let known = label_table(cmds);
    words(cmds, known, variables(cmds, known))
}

/// Each word followed by a newline.
pub open spec fn join_lines(ws: Seq<Seq<char>>) -> Seq<char>
    decreases ws.len(),
{
    if ws.len() == 0 {
        Seq::empty()
    } else {
        join_lines(ws.drop_last()) + ws.last() + seq!['\n']
    }
}

/// The binary text of a source text, or `None` when it does not assemble.
pub open spec fn assemble(src: Seq<char>) -> Option<Seq<char>> {
    match program_words(src) {
        Some(ws) => Some(join_lines(ws)),
        None => None,
    }
}

/// The sixteen bits of `number` in two's complement, most significant first.
pub fn number_to_16bin(number: i16) -> (bin: [usize; 16])
    ensures
        forall|i: int| 0 <= i < 16 ==> bin[i] as nat == #[trigger] digits(number as u16 as nat, 16)[i],
{
    let mut bin: [usize; 16] = [0; 16];
    let mut n: u16 = number as u16;
    let mut k: usize = 16;
    while k > 0
        invariant
            k <= 16,
            digits(number as u16 as nat, 16) == digits(n as nat, k as nat) + bin@.subrange(k as int, 16).map_values(|b: usize| b as nat),
        decreases k,
    {
        let ghost tail = bin@.subrange(k as int, 16).map_values(|b: usize| b as nat);
        assert(digits(n as nat, k as nat) == digits((n / 2) as nat, (k - 1) as nat).push((n % 2) as nat));
        bin[k - 1] = (n % 2) as usize;
        assert(bin@.subrange(k - 1, 16).map_values(|b: usize| b as nat) =~= seq![(n % 2) as nat] + tail);
        assert(digits(number as u16 as nat, 16) =~= digits((n / 2) as nat, (k - 1) as nat) + bin@.subrange(k - 1, 16).map_values(|b: usize| b as nat));
        n = n / 2;
        k -= 1;
    }
    assert(bin@.subrange(0, 16) =~= bin@);
    assert(digits(number as u16 as nat, 16) =~= bin@.map_values(|b: usize| b as nat));
    bin
}

/// The table of the first pass over `source`: predefined names and labels.
pub fn get_symbol_table(source: &str) -> (r: SymbolTable)
    ensures
        r@ == label_table(commands(source@)),
{
    let mut parser = Parser::new(source.to_owned());
    let mut stable = predefined_table();
    let mut count: usize = 0;
    let ghost cmds = parser.lines();
    proof {
        parser.lemma_lines_len();
    }
    while parser.has_more_commands()
        invariant
            cmds == commands(source@),
            cmds.len() <= usize::MAX,
            parser.lines() == cmds,
            parser.position() <= cmds.len(),
            count == instruction_count(cmds.take(parser.position() as int)),
            count <= parser.position(),
            stable@ == label_table(cmds.take(parser.position() as int)),
        decreases cmds.len() - parser.position(),
    {
        let ghost pos = parser.position() as int;
        parser.advance();
        assert(cmds.take(pos + 1).drop_last() =~= cmds.take(pos));
        match parser.command_type() {
            CommandType::A | CommandType::C => {
                count += 1;
            },
            CommandType::L => {
                let s = parser.symbol();
                stable.add_entry(s.as_str(), count);
            },
            CommandType::Invalid => {},
        }
    }
    assert(cmds.take(cmds.len() as int) =~= cmds);
    stable
}

/// `s` read as a 16-bit signed decimal number, or `None`.
pub fn parse_i16_literal(s: &str) -> (r: Option<i16>)
    ensures
        r is Some <==> parse_i16(s@) is Some,
        r matches Some(x) ==> parse_i16(s@) == Some(x as int),
{
    let v = chars_of(s);
    let n = v.len();
    let signed = n > 0 && (v[0] == '-' || v[0] == '+');
    let neg = n > 0 && v[0] == '-';
    let start: usize = if signed { 1 } else { 0 };
    let ghost body = if signed { v@.drop_first() } else { v@ };
    assert(body =~= v@.subrange(start as int, n as int));
    if start == n {
        return None;
    }
    let mut acc: u32 = 0;
    let mut big = false;
    let mut i: usize = start;
    while i < n
        invariant
            start <= i <= n == v.len(),
            v@ == s@,
            start == (if signed { 1usize } else { 0usize }),
            signed == (n > 0 && (v@[0] == '-' || v@[0] == '+')),
            neg == (n > 0 && v@[0] == '-'),
            body == v@.subrange(start as int, n as int),
            forall|j: int| start <= j < i ==> is_digit(#[trigger] v@[j]),
            !big ==> acc as nat == decimal_value(v@.subrange(start as int, i as int)) && acc <= 32768,
            big ==> decimal_value(v@.subrange(start as int, i as int)) > 32768,
        decreases n - i,
    {
        let c = v[i];
        if !('0' <= c && c <= '9') {
            assert(!is_digit(body[i - start]));
            return None;
        }
        let d: u32 = (c as u32) - ('0' as u32);
        assert(v@.subrange(start as int, i + 1).drop_last() =~= v@.subrange(start as int, i as int));
        if !big {
            acc = acc * 10 + d;
            if acc > 32768 {
                big = true;
            }
        }
        i += 1;
    }
    assert(v@.subrange(start as int, n as int) == body);
    assert(forall|j: int| 0 <= j < body.len() ==> is_digit(#[trigger] body[j])) by {
        assert(forall|j: int| 0 <= j < body.len() ==> body[j] == v@[j + start]);
    }
    if big {
        None
    } else if neg {
        Some((0 - (acc as i32)) as i16)
    } else if acc <= 32767 {
        Some(acc as i16)
    } else {
        None
    }
}

/// The sixteen characters of a word, one per bit.
fn word_text(bin: &[usize; 16]) -> (r: String)
    ensures
        r@.len() == 16,
        forall|i: int| 0 <= i < 16 ==> r@[i] == digit_char(#[trigger] bin[i] as nat),
{
    let mut r = String::new();
    let mut i: usize = 0;
    while i < 16
        invariant
            i <= 16,
            r@.len() == i,
            forall|j: int| 0 <= j < i ==> r@[j] == digit_char(#[trigger] bin[j] as nat),
        decreases 16 - i,
    {
        let c = if bin[i] == 0 { '0' } else { '1' };
        push_char(&mut r, c);
        i += 1;
    }
    r
}

/// The text of `address_word(v)`, for `v` in `0..32768`.
fn address_text(v: u16) -> (r: String)
    requires
        v < 32768,
    ensures
        r@ == address_word(v as int),
{
    let bin = number_to_16bin(v as i16);
    let r = word_text(&bin);
    proof {
        lemma_binary_len(v as nat, 16);
        assert(v as i16 as u16 == v);
    }
    assert(r@ =~= binary(v as nat, 16));
    r
}

/// Appends `w` to `s`.
fn append_string(s: &mut String, w: &String)
    ensures
        final(s)@ == old(s)@ + w@,
{
    s.append(w.as_str());
}

/// The variables among the first `i` commands come first, in the same
/// order, among the first `j`.
pub proof fn lemma_variables_prefix(cmds: Seq<Seq<char>>, known: Map<Seq<char>, nat>, i: int, j: int)
    requires
        0 <= i <= j <= cmds.len(),
    ensures
        variables(cmds.take(i), known).len() <= variables(cmds.take(j), known).len(),
        variables(cmds.take(j), known).take(variables(cmds.take(i), known).len() as int)
            == variables(cmds.take(i), known),
    decreases j - i,
{
    let vi = variables(cmds.take(i), known);
    if i < j {
        lemma_variables_prefix(cmds, known, i, j - 1);
        assert(cmds.take(j).drop_last() =~= cmds.take(j - 1));
        let vj1 = variables(cmds.take(j - 1), known);
        let vj = variables(cmds.take(j), known);
        assert(vj.take(vi.len() as int) =~= vj1.take(vi.len() as int));
    } else {
        assert(variables(cmds.take(j), known).take(vi.len() as int) =~= vi);
    }
}

/// Each variable appears once, and none is a number or a known name.
pub proof fn lemma_variables_unique(cmds: Seq<Seq<char>>, known: Map<Seq<char>, nat>)
    ensures
        variables(cmds, known).no_duplicates(),
        forall|p: int|
            0 <= p < variables(cmds, known).len() ==> !known.contains_key(
                #[trigger] variables(cmds, known)[p],
            ) && parse_i16(variables(cmds, known)[p]) is None,
        variables(cmds, known).len() <= cmds.len(),
    decreases cmds.len(),
{
    if cmds.len() > 0 {
        lemma_variables_unique(cmds.drop_last(), known);
    }
}

/// In a sequence without duplicates, an element is found at its own index.
pub proof fn lemma_index_of_unique(s: Seq<Seq<char>>, p: int)
    requires
        s.no_duplicates(),
        0 <= p < s.len(),
    ensures
        s.index_of(s[p]) == p,
{
    assert(s.contains(s[p]));
}

/// Once a prefix fails to assemble, the whole sequence does.
pub proof fn lemma_words_stuck(cmds: Seq<Seq<char>>, known: Map<Seq<char>, nat>, vars: Seq<Seq<char>>, i: int)
    requires
        0 <= i <= cmds.len(),
        words(cmds.take(i), known, vars) is None,
    ensures
        words(cmds, known, vars) is None,
    decreases cmds.len() - i,
{
    if i < cmds.len() {
        assert(cmds.take(i + 1).drop_last() =~= cmds.take(i));
        lemma_words_stuck(cmds, known, vars, i + 1);
    } else {
        assert(cmds.take(i) =~= cmds);
    }
}

/// Assembles `source` into binary text: one line of sixteen `0`/`1`
/// characters, ended by a newline, for each instruction. `None` when a
/// command is invalid or names an unknown mnemonic.
pub fn asm_to_hack(source: String) -> (r: Option<String>)
    requires
        source@.len() <= usize::MAX - 16,
    ensures
        r is Some <==> assemble(source@) is Some,
        r matches Some(h) ==> assemble(source@) == Some(h@),
{
    let mut stable = get_symbol_table(source.as_str());
    let ghost src = source@;
    let mut parser = Parser::new(source);
    let ghost cmds = parser.lines();
    let ghost known = label_table(cmds);
    let ghost vars = variables(cmds, known);
    let mut hack = String::new();
    let mut next: usize = 16;
    let ghost ws: Seq<Seq<char>> = Seq::empty();
    proof {
        lemma_variables_unique(cmds, known);
        assert(cmds.take(0) =~= Seq::<Seq<char>>::empty());
        assert(join_lines(ws) =~= hack@);
    }
    while parser.has_more_commands()
        invariant
            src == source@,
            cmds == commands(src),
            known == label_table(cmds),
            vars == variables(cmds, known),
            vars.no_duplicates(),
            cmds.len() <= src.len() <= usize::MAX - 16,
            parser.lines() == cmds,
            parser.position() <= cmds.len(),
            words(cmds.take(parser.position() as int), known, vars) == Some(ws),
            hack@ == join_lines(ws),
            next == 16 + variables(cmds.take(parser.position() as int), known).len(),
            variables(cmds.take(parser.position() as int), known).len() <= parser.position(),
            forall|k: Seq<char>| #[trigger] stable@.contains_key(k) <==> known.contains_key(k)
                || variables(cmds.take(parser.position() as int), known).contains(k),
            forall|k: Seq<char>| known.contains_key(k) ==> #[trigger] stable@[k] == known[k],
            forall|p: int| 0 <= p < variables(cmds.take(parser.position() as int), known).len()
                ==> stable@[#[trigger] variables(cmds.take(parser.position() as int), known)[p]]
                == 16 + p,
        decreases cmds.len() - parser.position(),
    {
        let ghost pos = parser.position() as int;
        let ghost vs = variables(cmds.take(pos), known);
        parser.advance();
        let ghost c = cmds[pos];
        assert(cmds.take(pos + 1).drop_last() =~= cmds.take(pos));
        assert(cmds.take(pos + 1).last() == c);
        proof {
            lemma_variables_prefix(cmds, known, pos, cmds.len() as int);
            lemma_variables_prefix(cmds, known, pos + 1, cmds.len() as int);
            assert(cmds.take(cmds.len() as int) =~= cmds);
            lemma_variables_unique(cmds.take(pos), known);
        }
        match parser.command_type() {
            CommandType::Invalid => {
                proof {
                    assert(words(cmds.take(pos + 1), known, vars) is None);
                    lemma_words_stuck(cmds, known, vars, pos + 1);
                    assert(program_words(src) is None);
                }
                return None;
            },
            CommandType::L => {
                proof {
                    assert(words(cmds.take(pos + 1), known, vars) == Some(ws));
                }
            },
            CommandType::A => {
                let s = parser.symbol();
                let ghost sym = s@;
                let low: u16 = match parse_i16_literal(s.as_str()) {
                    Some(x) => {
                        let xi = x as i32;
                        let m: i32 = if xi < 0 { xi + 65536 } else { xi };
                        assert(m % 32768 == (x as int) % 32768);
                        (m % 32768) as u16
                    },
                    None => {
                        if stable.contains(s.as_str()) {
                            let a = *stable.get_address(s.as_str()).unwrap();
                            proof {
                                if !known.contains_key(sym) {
                                    let p = choose|p: int| 0 <= p < vs.len() && vs[p] == sym;
                                    assert(vars.take(vs.len() as int) == vs);
                                    assert(vars.take(vs.len() as int)[p] == sym);
                                    assert(vars[p] == sym);
                                    lemma_index_of_unique(vars, p);
                                }
                            }
                            (a % 32768) as u16
                        } else {
                            let a = next;
                            stable.add_entry(s.as_str(), next);
                            next = next + 1;
                            proof {
                                let vs1 = vs.push(sym);
                                assert(variables(cmds.take(pos + 1), known) == vs1);
                                assert(vars.take(vs1.len() as int) == vs1);
                                assert(vars.take(vs1.len() as int)[vs.len() as int] == sym);
                                assert(vars[vs.len() as int] == sym);
                                lemma_index_of_unique(vars, vs.len() as int);
                                assert forall|p: int| 0 <= p < vs1.len() implies stable@[#[trigger] vs1[p]]
                                    == 16 + p by {
                                    if p < vs.len() {
                                        assert(vs[p] != sym);
                                    }
                                }
                                assert forall|k: Seq<char>| #[trigger] stable@.contains_key(k) <==> known.contains_key(k)
                                    || vs1.contains(k) by {
                                    if vs.contains(k) {
                                        let p = choose|p: int| 0 <= p < vs.len() && vs[p] == k;
                                        assert(vs1[p] == k);
                                    }
                                    if vs1.contains(k) && k != sym {
                                        let p = choose|p: int| 0 <= p < vs1.len() && vs1[p] == k;
                                        assert(vs[p] == k);
                                    }
                                }
                            }
                            (a % 32768) as u16
                        }
                    },
                };
                let line = address_text(low);
                append_string(&mut hack, &line);
                push_char(&mut hack, '\n');
                proof {
                    let w = address_word(operand_value(sym, known, vars));
                    assert(w == line@);
                    assert(ws.push(w).drop_last() =~= ws);
                    ws = ws.push(w);
                    assert(hack@ =~= join_lines(ws));
                }
            },
            CommandType::C => {
                let comp = Code::comp(parser.comp().as_str());
                let dest = Code::dest(parser.dest().as_str());
                let jump = Code::jump(parser.jump().as_str());
                match (comp, dest, jump) {
                    (Some(x), Some(d), Some(j)) => {
                        push_char(&mut hack, '1');
                        push_char(&mut hack, '1');
                        push_char(&mut hack, '1');
                        append_string(&mut hack, &x);
                        append_string(&mut hack, &d);
                        append_string(&mut hack, &j);
                        push_char(&mut hack, '\n');
                        proof {
                            let w = compute_word(c)->0;
                            assert(w =~= seq!['1', '1', '1'] + x@ + d@ + j@);
                            assert(ws.push(w).drop_last() =~= ws);
                            ws = ws.push(w);
                            assert(hack@ =~= join_lines(ws));
                        }
                    },
                    _ => {
                        proof {
                            lemma_words_stuck(cmds, known, vars, pos + 1);
                        }
                        return None;
                    },
                }
            },
        }
    }
    assert(cmds.take(cmds.len() as int) =~= cmds);
    Some(hack)
}

/// Labels after position `i` that do not name `name` leave its entry in the
/// table as it was after the first `i` commands.
pub proof fn lemma_label_kept(cmds: Seq<Seq<char>>, name: Seq<char>, i: int)
    requires
        0 <= i <= cmds.len(),
        forall|j: int|
            i <= j < cmds.len() && command_kind(#[trigger] cmds[j]) == CommandType::L
                ==> symbol_field(cmds[j]) != name,
    ensures
        label_table(cmds).contains_key(name) == label_table(cmds.take(i)).contains_key(name),
        label_table(cmds)[name] == label_table(cmds.take(i))[name],
    decreases cmds.len() - i,
{
    if i < cmds.len() {
        lemma_label_kept(cmds, name, i + 1);
        assert(cmds.take(i + 1).drop_last() =~= cmds.take(i));
        assert(cmds.take(i + 1).last() == cmds[i]);
    } else {
        assert(cmds.take(i) =~= cmds);
    }
}

/// The words of `cmds` are one per A or C command, each sixteen characters.
pub proof fn lemma_words_shape(cmds: Seq<Seq<char>>, known: Map<Seq<char>, nat>, vars: Seq<Seq<char>>)
    requires
        words(cmds, known, vars) is Some,
    ensures
        words(cmds, known, vars)->0.len() == instruction_count(cmds),
        forall|i: int|
            0 <= i < words(cmds, known, vars)->0.len() ==> (#[trigger] words(cmds, known, vars)->0[i]).len() == 16,
    decreases cmds.len(),
{
    if cmds.len() > 0 {
        lemma_words_shape(cmds.drop_last(), known, vars);
        let c = cmds.last();
        if command_kind(c) == CommandType::A {
            lemma_binary_len((operand_value(symbol_field(c), known, vars) % 32768) as nat, 16);
        } else if command_kind(c) == CommandType::C {
            lemma_binary_len(comp_code(comp_field(c))->0, 7);
            lemma_binary_len(dest_code(dest_field(c))->0, 3);
            lemma_binary_len(jump_code(jump_field(c))->0, 3);
        }
    }
}

/// A source that assembles gives exactly one line per A or C command, each
/// of sixteen characters; labels give none.
pub proof fn lemma_one_line_per_instruction(src: Seq<char>)
    requires
        assemble(src) is Some,
    ensures
        assemble(src) == Some(join_lines(program_words(src)->0)),
        program_words(src)->0.len() == instruction_count(commands(src)),
        forall|i: int|
            0 <= i < program_words(src)->0.len() ==> (#[trigger] program_words(src)->0[i]).len() == 16,
{
    let cmds = commands(src);
    lemma_words_shape(cmds, label_table(cmds), variables(cmds, label_table(cmds)));
}

/// A predefined name that no label of the program redefines always stands
/// for its fixed address.
pub proof fn lemma_predefined_fixed(src: Seq<char>, name: Seq<char>)
    requires
        predefined().contains_key(name),
        forall|j: int|
            0 <= j < commands(src).len() && command_kind(#[trigger] commands(src)[j])
                == CommandType::L ==> symbol_field(commands(src)[j]) != name,
    ensures
        operand_value(name, label_table(commands(src)), variables(commands(src), label_table(commands(src))))
            == predefined()[name],
{
    let cmds = commands(src);
    lemma_label_kept(cmds, name, 0);
    assert(cmds.take(0) =~= Seq::<Seq<char>>::empty());
    assert(!is_digit(name[0]));
    assert(parse_i16(name) is None);
}

/// Variables get the addresses 16, 17, ... in the order in which they are
/// first used, and each variable has a single address.
pub proof fn lemma_variable_addresses(src: Seq<char>, i: int)
    requires
        0 <= i < variables(commands(src), label_table(commands(src))).len(),
    ensures
        variables(commands(src), label_table(commands(src))).no_duplicates(),
        operand_value(
            variables(commands(src), label_table(commands(src)))[i],
            label_table(commands(src)),
            variables(commands(src), label_table(commands(src))),
        ) == 16 + i,
{
    let cmds = commands(src);
    let known = label_table(cmds);
    lemma_variables_unique(cmds, known);
    lemma_index_of_unique(variables(cmds, known), i);
}

/// The variables first used among the first `k` commands are the first
/// ones numbered, in the same order.
pub proof fn lemma_first_use_order(src: Seq<char>, k: int)
    requires
        0 <= k <= commands(src).len(),
    ensures
        variables(commands(src), label_table(commands(src))).take(
            variables(commands(src).take(k), label_table(commands(src))).len() as int,
        ) == variables(commands(src).take(k), label_table(commands(src))),
{
    let cmds = commands(src);
    lemma_variables_prefix(cmds, label_table(cmds), k, cmds.len() as int);
    assert(cmds.take(cmds.len() as int) =~= cmds);
}

/// A label stands for the address of the instruction that follows its last
/// definition, wherever it is used: before that definition or after it.
pub proof fn lemma_label_address(src: Seq<char>, k: int)
    requires
        0 <= k < commands(src).len(),
        command_kind(commands(src)[k]) == CommandType::L,
        parse_i16(symbol_field(commands(src)[k])) is None,
        forall|j: int|
            k < j < commands(src).len() && command_kind(#[trigger] commands(src)[j])
                == CommandType::L ==> symbol_field(commands(src)[j]) != symbol_field(
                commands(src)[k],
            ),
    ensures
        operand_value(
            symbol_field(commands(src)[k]),
            label_table(commands(src)),
            variables(commands(src), label_table(commands(src))),
        ) == instruction_count(commands(src).take(k)),
{
    let cmds = commands(src);
    let name = symbol_field(cmds[k]);
    lemma_label_kept(cmds, name, k + 1);
    assert(cmds.take(k + 1).drop_last() =~= cmds.take(k));
    assert(cmds.take(k + 1).last() == cmds[k]);
}

/// A table holding the predefined names.
fn predefined_table() -> (t: SymbolTable)
    ensures
        t@ == predefined(),
{
    let mut t = SymbolTable::new();
    t.add_entry("SP", 0);
    t.add_entry("LCL", 1);
    t.add_entry("ARG", 2);
    t.add_entry("THIS", 3);
    t.add_entry("THAT", 4);
    t.add_entry("R0", 0);
    t.add_entry("R1", 1);
    t.add_entry("R2", 2);
    t.add_entry("R3", 3);
    t.add_entry("R4", 4);
    t.add_entry("R5", 5);
    t.add_entry("R6", 6);
    t.add_entry("R7", 7);
    t.add_entry("R8", 8);
    t.add_entry("R9", 9);
    t.add_entry("R10", 10);
    t.add_entry("R11", 11);
    t.add_entry("R12", 12);
    t.add_entry("R13", 13);
    t.add_entry("R14", 14);
    t.add_entry("R15", 15);
    t.add_entry("SCREEN", 0x4000);
    t.add_entry("KBD", 0x6000);
    proof {
        reveal_strlit("SP");
        assert("SP"@ =~= seq!['S', 'P']);
        reveal_strlit("LCL");
        assert("LCL"@ =~= seq!['L', 'C', 'L']);
        reveal_strlit("ARG");
        assert("ARG"@ =~= seq!['A', 'R', 'G']);
        reveal_strlit("THIS");
        assert("THIS"@ =~= seq!['T', 'H', 'I', 'S']);
        reveal_strlit("THAT");
        assert("THAT"@ =~= seq!['T', 'H', 'A', 'T']);
        reveal_strlit("R0");
        assert("R0"@ =~= seq!['R', '0']);
        reveal_strlit("R1");
        assert("R1"@ =~= seq!['R', '1']);
        reveal_strlit("R2");
        assert("R2"@ =~= seq!['R', '2']);
        reveal_strlit("R3");
        assert("R3"@ =~= seq!['R', '3']);
        reveal_strlit("R4");
        assert("R4"@ =~= seq!['R', '4']);
        reveal_strlit("R5");
        assert("R5"@ =~= seq!['R', '5']);
        reveal_strlit("R6");
        assert("R6"@ =~= seq!['R', '6']);
        reveal_strlit("R7");
        assert("R7"@ =~= seq!['R', '7']);
        reveal_strlit("R8");
        assert("R8"@ =~= seq!['R', '8']);
        reveal_strlit("R9");
        assert("R9"@ =~= seq!['R', '9']);
        reveal_strlit("R10");
        assert("R10"@ =~= seq!['R', '1', '0']);
        reveal_strlit("R11");
        assert("R11"@ =~= seq!['R', '1', '1']);
        reveal_strlit("R12");
        assert("R12"@ =~= seq!['R', '1', '2']);
        reveal_strlit("R13");
        assert("R13"@ =~= seq!['R', '1', '3']);
        reveal_strlit("R14");
        assert("R14"@ =~= seq!['R', '1', '4']);
        reveal_strlit("R15");
        assert("R15"@ =~= seq!['R', '1', '5']);
        reveal_strlit("SCREEN");
        assert("SCREEN"@ =~= seq!['S', 'C', 'R', 'E', 'E', 'N']);
        reveal_strlit("KBD");
        assert("KBD"@ =~= seq!['K', 'B', 'D']);
    }
    assert(t@ =~= predefined());
    t
}

} // verus!
