//! The tokenizer: it cleans the source text into commands and takes each
//! command apart into its kind and fields.
use vstd::prelude::*;

use crate::text::{chars_of, string_of};

verus! {

/// Blank characters that surround a command.
pub open spec fn is_space(c: char) -> bool {
    c == ' ' || c == '\t' || c == '\n' || c == '\r' || c == '\x0C'
}

/// A line comment starts at position `i` of `l`.
pub open spec fn comment_at(l: Seq<char>, i: int) -> bool {
    0 <= i && i + 1 < l.len() && l[i] == '/' && l[i + 1] == '/'
}

/// What stands before the first `//` of a line.
pub open spec fn code_part(l: Seq<char>) -> Seq<char>
    decreases l.len(),
{
    if l.len() == 0 || comment_at(l, 0) {
        Seq::empty()
    } else {
        seq![l[0]] + code_part(l.drop_first())
    }
}

/// `l` without its leading blanks.
pub open spec fn trim_start(l: Seq<char>) -> Seq<char>
    decreases l.len(),
{
    if l.len() > 0 && is_space(l[0]) {
        trim_start(l.drop_first())
    } else {
        l
    }
}

/// `l` without its trailing blanks.
pub open spec fn trim_end(l: Seq<char>) -> Seq<char>
    decreases l.len(),
{
    if l.len() > 0 && is_space(l.last()) {
        trim_end(l.drop_last())
    } else {
        l
    }
}

/// A source line without its comment and surrounding blanks.
pub open spec fn clean_line(l: Seq<char>) -> Seq<char> {
    trim_end(trim_start(code_part(l)))
}

/// The lines of `s`, split at each newline; the last one may be empty.
pub open spec fn split_lines(s: Seq<char>) -> Seq<Seq<char>>
    decreases s.len(),
{
    if s.len() == 0 {
        seq![Seq::empty()]
    } else {
        let r = split_lines(s.drop_last());
        if s.last() == '\n' {
            r.push(Seq::empty())
        } else {
            r.update(r.len() - 1, r.last().push(s.last()))
        }
    }
}

/// The cleaned lines that are not empty, in order.
pub open spec fn commands_of_lines(ls: Seq<Seq<char>>) -> Seq<Seq<char>>
    decreases ls.len(),
{
    if ls.len() == 0 {
        Seq::empty()
    } else {
        let r = commands_of_lines(ls.drop_last());
        let c = clean_line(ls.last());
        if c.len() == 0 {
            r
        } else {
            r.push(c)
        }
    }
}

/// The commands of a source text.
pub open spec fn commands(src: Seq<char>) -> Seq<Seq<char>> {
    commands_of_lines(split_lines(src))
}

/// The range of `v[lo..hi]` that holds its cleaned text.
fn clean_range(v: &Vec<char>, lo: usize, hi: usize) -> (r: (usize, usize))
    requires
        lo <= hi <= v.len(),
    ensures
        lo <= r.0 <= r.1 <= hi,
        v@.subrange(r.0 as int, r.1 as int) == clean_line(v@.subrange(lo as int, hi as int)),
{
    let ghost line = v@.subrange(lo as int, hi as int);
    let mut e: usize = lo;
    while e < hi && !(e + 1 < hi && v[e] == '/' && v[e + 1] == '/')
        invariant
            lo <= e <= hi <= v.len(),
            code_part(line) == v@.subrange(lo as int, e as int) + code_part(
                v@.subrange(e as int, hi as int),
            ),
        decreases hi - e,
    {
        let ghost rest = v@.subrange(e as int, hi as int);
        assert(rest.drop_first() =~= v@.subrange(e + 1, hi as int));
        assert(v@.subrange(lo as int, e + 1) =~= v@.subrange(lo as int, e as int) + seq![rest[0]]);
        assert(code_part(line) =~= v@.subrange(lo as int, e + 1) + code_part(
            v@.subrange(e + 1, hi as int),
        ));
        e += 1;
    }
    assert(code_part(v@.subrange(e as int, hi as int)) =~= Seq::<char>::empty());
    assert(code_part(line) =~= v@.subrange(lo as int, e as int));
    let mut a: usize = lo;
    while a < e && is_blank(v[a])
        invariant
            lo <= a <= e <= hi <= v.len(),
            trim_start(code_part(line)) == trim_start(v@.subrange(a as int, e as int)),
        decreases e - a,
    {
        assert(v@.subrange(a as int, e as int).drop_first() =~= v@.subrange(a + 1, e as int));
        a += 1;
    }
    let mut b: usize = e;
    while b > a && is_blank(v[b - 1])
        invariant
            lo <= a <= b <= e <= hi <= v.len(),
            trim_start(code_part(line)) == v@.subrange(a as int, e as int),
            clean_line(line) == trim_end(v@.subrange(a as int, b as int)),
        decreases b - a,
    {
        assert(v@.subrange(a as int, b as int).drop_last() =~= v@.subrange(a as int, b - 1));
        b -= 1;
    }
    (a, b)
}

/// Whether `c` is one of the blanks that surround a command.
fn is_blank(c: char) -> (r: bool)
    ensures
        r == is_space(c),
{
    c == ' ' || c == '\t' || c == '\n' || c == '\r' || c == '\x0C'
}

/// The kind of a command.
#[derive(Debug, Clone, Copy, PartialEq, Eq, Structural)]
pub enum CommandType {
    /// `@Xxx`: a constant or a symbol to load into A.
    A,
    /// `dest=comp;jump`: a computation.
    C,
    /// `(Xxx)`: a label for the next instruction.
    L,
    /// None of the three forms.
    Invalid,
}

/// Position of the first `c` in `s`, or `s.len()` when there is none.
pub open spec fn first_index(s: Seq<char>, c: char) -> int
    decreases s.len(),
{
    if s.len() == 0 || s[0] == c {
        0
    } else {
        1 + first_index(s.drop_first(), c)
    }
}

/// The kind of command `c` is.
pub open spec fn command_kind(c: Seq<char>) -> CommandType {
    if c.len() > 0 && c[0] == '@' {
        CommandType::A
    } else if c.contains('=') || c.contains(';') {
        CommandType::C
    } else if c.len() > 0 && c[0] == '(' && c.last() == ')' {
        CommandType::L
    } else {
        CommandType::Invalid
    }
}

/// The `Xxx` of `@Xxx` or of `(Xxx)`.
pub open spec fn symbol_field(c: Seq<char>) -> Seq<char> {
    if c.len() > 0 && c[0] == '@' {
        c.subrange(1, c.len() as int)
    } else if c.len() >= 2 && c[0] == '(' {
        c.subrange(1, c.len() - 1)
    } else {
        Seq::empty()
    }
}

/// What stands before the first `=`, or nothing.
pub open spec fn dest_field(c: Seq<char>) -> Seq<char> {
    let e = first_index(c, '=');
    if e < c.len() {
        c.subrange(0, e)
    } else {
        Seq::empty()
    }
}

/// What stands between the first `=` and the next `;`; without `=`, what
/// stands before the first `;`.
pub open spec fn comp_field(c: Seq<char>) -> Seq<char> {
    let e = first_index(c, '=');
    if e < c.len() {
        let rest = c.subrange(e + 1, c.len() as int);
        let k = first_index(rest, ';');
        if k < rest.len() {
            rest.subrange(0, k)
        } else {
            rest
        }
    } else {
        let k = first_index(c, ';');
        if k < c.len() {
            c.subrange(0, k)
        } else {
            Seq::empty()
        }
    }
}

/// What stands after the first `;`, or nothing.
pub open spec fn jump_field(c: Seq<char>) -> Seq<char> {
    let k = first_index(c, ';');
    if k < c.len() {
        c.subrange(k + 1, c.len() as int)
    } else {
        Seq::empty()
    }
}

/// The first position at or after `from` where `v` holds `c`, or `v.len()`.
fn find_char(v: &Vec<char>, from: usize, c: char) -> (r: usize)
    requires
        from <= v.len(),
    ensures
        from <= r <= v.len(),
        r == from + first_index(v@.subrange(from as int, v.len() as int), c),
        r < v.len() ==> v@[r as int] == c,
        forall|j: int| from <= j < r ==> v@[j] != c,
{
    let mut i: usize = from;
    while i < v.len() && v[i] != c
        invariant
            from <= i <= v.len(),
            first_index(v@.subrange(from as int, v.len() as int), c) == (i - from) + first_index(
                v@.subrange(i as int, v.len() as int),
                c,
            ),
            forall|j: int| from <= j < i ==> v@[j] != c,
        decreases v.len() - i,
    {
        assert(v@.subrange(i as int, v.len() as int).drop_first() =~= v@.subrange(
            i + 1,
            v.len() as int,
        ));
        i += 1;
    }
    i
}

/// Reads assembly text as a sequence of commands, one at a time.
pub struct Parser {
    /// The commands of the text: its lines without comments and surrounding
    /// blanks, empty ones left out.
    pub asm_lines: Vec<String>,
    command: String,
    count: usize,
}

impl Parser {
    /// The commands, as character sequences.
    pub closed spec fn lines(&self) -> Seq<Seq<char>> {
        self.asm_lines@.map_values(|s: String| s@)
    }

    /// The current command; empty before the first `advance`.
    pub closed spec fn current(&self) -> Seq<char> {
        self.command@
    }

    /// How many commands have been read.
    pub closed spec fn position(&self) -> nat {
        self.count as nat
    }

    /// The number of commands fits in a `usize`.
    pub proof fn lemma_lines_len(&self)
        ensures
            self.lines().len() <= usize::MAX,
    {
        assert(self.lines().len() == self.asm_lines.len());
    }

    /// A parser over the commands of `source`, before the first one.
    pub fn new(source: String) -> (p: Parser)
        ensures
            p.lines() == commands(source@),
            p.position() == 0,
            p.current() == Seq::<char>::empty(),
            p.lines().len() <= source@.len(),
    {
        let cs = chars_of(source.as_str());
        let mut asm_lines: Vec<String> = Vec::new();
        let ghost done: Seq<Seq<char>> = Seq::empty();
        let mut start: usize = 0;
        let mut i: usize = 0;
        assert(cs@.subrange(0, 0) =~= Seq::<char>::empty());
        assert(split_lines(cs@.subrange(0, 0)) =~= done.push(cs@.subrange(0, 0)));
        while i < cs.len()
            invariant
                start <= i <= cs.len(),
                cs@ == source@,
                split_lines(cs@.subrange(0, i as int)) == done.push(
                    cs@.subrange(start as int, i as int),
                ),
                asm_lines@.map_values(|s: String| s@) == commands_of_lines(done),
                asm_lines.len() <= start,
            decreases cs.len() - i,
        {
            let ghost prev = cs@.subrange(0, i as int);
            let ghost cur = cs@.subrange(start as int, i as int);
            assert(cs@.subrange(0, i + 1).drop_last() =~= prev);
            if cs[i] == '\n' {
                let (a, b) = clean_range(&cs, start, i);
                proof {
                    assert(done.push(cur).drop_last() =~= done);
                }
                if a < b {
                    let line = string_of(&cs, a, b);
                    asm_lines.push(line);
                }
                proof {
                    done = done.push(cur);
                }
                assert(asm_lines@.map_values(|s: String| s@) =~= commands_of_lines(done));
                start = i + 1;
                assert(cs@.subrange(start as int, i + 1) =~= Seq::<char>::empty());
            } else {
                assert(cs@.subrange(start as int, i + 1) =~= cur.push(cs@[i as int]));
                assert(done.push(cur).update(done.len() as int, cur.push(cs@[i as int]))
                    =~= done.push(cs@.subrange(start as int, i + 1)));
            }
            i += 1;
        }
        assert(cs@.subrange(0, i as int) =~= cs@);
        let ghost cur = cs@.subrange(start as int, i as int);
        let (a, b) = clean_range(&cs, start, i);
        assert(done.push(cur).drop_last() =~= done);
        if a < b {
            let line = string_of(&cs, a, b);
            asm_lines.push(line);
        }
        assert(asm_lines@.map_values(|s: String| s@) =~= commands_of_lines(done.push(cur)));
        Parser { asm_lines, command: String::new(), count: 0 }
    }

    /// Whether commands remain to be read.
    pub fn has_more_commands(&self) -> (r: bool)
        ensures
            r == (self.position() < self.lines().len()),
    {
        self.count < self.asm_lines.len()
    }

    /// Makes the next command the current one.
    pub fn advance(&mut self)
        requires
            old(self).position() < old(self).lines().len(),
        ensures
            final(self).lines() == old(self).lines(),
            final(self).position() == old(self).position() + 1,
            final(self).current() == old(self).lines()[old(self).position() as int],
    {
        assert(self.asm_lines@.map_values(|s: String| s@).len() == self.asm_lines.len());
        self.command = self.asm_lines[self.count].clone();
        self.count += 1;
    }

    /// The kind of the current command.
    pub fn command_type(&self) -> (r: CommandType)
        ensures
            r == command_kind(self.current()),
    {
        let v = chars_of(self.command.as_str());
        if v.len() > 0 && v[0] == '@' {
            return CommandType::A;
        }
        let e = find_char(&v, 0, '=');
        let k = find_char(&v, 0, ';');
        if e < v.len() || k < v.len() {
            return CommandType::C;
        }
        assert(!v@.contains('=') && !v@.contains(';'));
        if v.len() > 0 && v[0] == '(' && v[v.len() - 1] == ')' {
            return CommandType::L;
        }
        CommandType::Invalid
    }

    /// The symbol or number of an `@Xxx` or `(Xxx)` command; empty for
    /// other commands.
    pub fn symbol(&self) -> (r: String)
        ensures
            r@ == symbol_field(self.current()),
    {
        let v = chars_of(self.command.as_str());
        if v.len() > 0 && v[0] == '@' {
            string_of(&v, 1, v.len())
        } else if v.len() >= 2 && v[0] == '(' {
            string_of(&v, 1, v.len() - 1)
        } else {
            String::new()
        }
    }

    /// The destination mnemonic of the current command.
    pub fn dest(&self) -> (r: String)
        ensures
            r@ == dest_field(self.current()),
    {
        let v = chars_of(self.command.as_str());
        let e = find_char(&v, 0, '=');
        assert(v@.subrange(0, v.len() as int) =~= v@);
        if e < v.len() {
            string_of(&v, 0, e)
        } else {
            String::new()
        }
    }

    /// The computation mnemonic of the current command.
    pub fn comp(&self) -> (r: String)
        ensures
            r@ == comp_field(self.current()),
    {
        let v = chars_of(self.command.as_str());
        let e = find_char(&v, 0, '=');
        assert(v@.subrange(0, v.len() as int) =~= v@);
        if e < v.len() {
            let k = find_char(&v, e + 1, ';');
            let ghost rest = v@.subrange(e + 1, v.len() as int);
            assert(rest.subrange(0, k - (e + 1)) =~= v@.subrange(e + 1, k as int));
            string_of(&v, e + 1, k)
        } else {
            let k = find_char(&v, 0, ';');
            if k < v.len() {
                string_of(&v, 0, k)
            } else {
                String::new()
            }
        }
    }

    /// The jump mnemonic of the current command.
    pub fn jump(&self) -> (r: String)
        ensures
            r@ == jump_field(self.current()),
    {
        let v = chars_of(self.command.as_str());
        let k = find_char(&v, 0, ';');
        assert(v@.subrange(0, v.len() as int) =~= v@);
        if k < v.len() {
            string_of(&v, k + 1, v.len())
        } else {
            String::new()
        }
    }
}

} // verus!
