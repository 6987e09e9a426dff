//! The file in which the constants and the callback of the interface are
//! declared: sections of assignments, with comments. And the symbol that the
//! callback is linked under.
use crate::report::joined;
use crate::text::{decimal, decimal_text, same_text, DIGITS};
use vstd::prelude::*;
use vstd::std_specs::iter::IteratorSpec;
use vstd::string::StringExecFns;
use vstd::utf8::encode_utf8;

verus! {

/// Is a character white space? These are the characters with the Unicode
/// property `White_Space`.
pub open spec fn white(c: char) -> bool {
    let code = c as int;
    ||| 0x9 <= code <= 0xd
    ||| code == 0x20
    ||| code == 0x85
    ||| code == 0xa0
    ||| code == 0x1680
    ||| 0x2000 <= code <= 0x200a
    ||| code == 0x2028
    ||| code == 0x2029
    ||| code == 0x202f
    ||| code == 0x205f
    ||| code == 0x3000
}

/// Asks `char::is_whitespace`, which says whether a character has the Unicode
/// property `White_Space`.
#[verifier::external_body]
fn is_white(c: char) -> (blank: bool)
    ensures
        blank == white(c),
{
    c.is_whitespace()
}

/// `String::push` appends a character.
pub assume_specification[ String::push ](text: &mut String, c: char)
    ensures
        final(text)@ == old(text)@.push(c),
;

/// What is taken off both ends of a text.
#[derive(Clone, Copy, PartialEq, Eq, Structural, Debug)]
pub enum Edge {
    Blank,
    Quote,
    Bracket,
}

/// Is a character taken off?
pub open spec fn comes_off(edge: Edge, c: char) -> bool {
    match edge {
        Edge::Blank => white(c),
        Edge::Quote => c == '"',
        Edge::Bracket => c == '[' || c == ']',
    }
}

/// A text without what comes off its start.
pub open spec fn trimmed_start(text: Seq<char>, edge: Edge) -> Seq<char>
    decreases text.len(),
{
    if text.len() > 0 && comes_off(edge, text[0]) {
        trimmed_start(text.drop_first(), edge)
    } else {
        text
    }
}

/// A text without what comes off its end.
pub open spec fn trimmed_end(text: Seq<char>, edge: Edge) -> Seq<char>
    decreases text.len(),
{
    if text.len() > 0 && comes_off(edge, text.last()) {
        trimmed_end(text.drop_last(), edge)
    } else {
        text
    }
}

/// A text without what comes off its ends.
pub open spec fn trimmed(text: Seq<char>, edge: Edge) -> Seq<char> {
    trimmed_end(trimmed_start(text, edge), edge)
}

/// Where a character stands first; the length of the text where it does not.
pub open spec fn first_at(text: Seq<char>, mark: char) -> int
    decreases text.len(),
{
    if text.len() == 0 || text[0] == mark {
        0
    } else {
        1 + first_at(text.drop_first(), mark)
    }
}

/// The pieces of a text between the places of a character.
pub open spec fn pieces(text: Seq<char>, mark: char) -> Seq<Seq<char>>
    decreases text.len(),
{
    if text.len() == 0 {
        seq![Seq::empty()]
    } else {
        let before = pieces(text.drop_last(), mark);
        if text.last() == mark {
            before.push(Seq::empty())
        } else {
            before.drop_last().push(before.last().push(text.last()))
        }
    }
}

/// The texts that vectors of characters hold.
pub open spec fn held(texts: Seq<Vec<char>>) -> Seq<Seq<char>> {
    Seq::new(texts.len(), |i: int| texts[i]@)
}

fn chars_of(text: &str) -> (chars: Vec<char>)
    ensures
        chars@ == text@,
{
    let mut rest = text.chars();
    let mut chars: Vec<char> = Vec::new();
    proof {
        assert(text@.skip(0) =~= text@);
        assert(text@.take(0) =~= Seq::empty());
    }
    loop
        invariant
            chars@.len() <= text@.len(),
            rest.remaining() == text@.skip(chars@.len() as int),
            chars@ == text@.take(chars@.len() as int),
        decreases text@.len() - chars@.len(),
    {
        match rest.next() {
            None => {
                assert(text@.take(chars@.len() as int) =~= text@);
                return chars;
            },
            Some(c) => {
                proof {
                    let k = chars@.len() as int;
                    assert(c == text@[k]);
                    assert(text@.skip(k).drop_first() =~= text@.skip(k + 1));
                    assert(text@.take(k + 1) =~= text@.take(k).push(c));
                }
                chars.push(c);
            },
        }
    }
}

fn text_of_chars(chars: &Vec<char>) -> (text: String)
    ensures
        text@ == chars@,
{
    let mut text: String = String::new();
    let mut i: usize = 0;
    assert(text@ =~= chars@.take(0));
    while i < chars.len()
        invariant
            i <= chars@.len(),
            text@ == chars@.take(i as int),
        decreases chars@.len() - i,
    {
        text.push(chars[i]);
        i = i + 1;
        assert(chars@.take(i as int) =~= chars@.take(i - 1).push(chars@[i - 1]));
    }
    assert(chars@.take(i as int) =~= chars@);
    text
}

fn part(chars: &Vec<char>, from: usize, to: usize) -> (between: Vec<char>)
    requires
        from <= to <= chars@.len(),
    ensures
        between@ == chars@.subrange(from as int, to as int),
{
    let mut between: Vec<char> = Vec::new();
    let mut i: usize = from;
    assert(between@ =~= chars@.subrange(from as int, from as int));
    while i < to
        invariant
            from <= i <= to <= chars@.len(),
            between@ == chars@.subrange(from as int, i as int),
        decreases to - i,
    {
        between.push(chars[i]);
        i = i + 1;
        assert(chars@.subrange(from as int, i as int) =~= chars@.subrange(
            from as int,
            i - 1,
        ).push(chars@[i - 1]));
    }
    between
}

fn strips(edge: Edge, c: char) -> (off: bool)
    ensures
        off == comes_off(edge, c),
{
    match edge {
        Edge::Blank => is_white(c),
        Edge::Quote => c == '"',
        Edge::Bracket => c == '[' || c == ']',
    }
}

fn trim(chars: &Vec<char>, edge: Edge) -> (rest: Vec<char>)
    ensures
        rest@ == trimmed(chars@, edge),
{
    let mut from: usize = 0;
    assert(chars@.skip(0) =~= chars@);
    while from < chars.len() && strips(edge, chars[from])
        invariant
            from <= chars@.len(),
            trimmed_start(chars@.skip(from as int), edge) == trimmed_start(chars@, edge),
        decreases chars@.len() - from,
    {
        assert(chars@.skip(from as int).drop_first() =~= chars@.skip(from + 1));
        from = from + 1;
    }
    let ghost kept = chars@.skip(from as int);
    assert(trimmed_start(chars@, edge) == kept);
    let mut to: usize = chars.len();
    assert(chars@.subrange(from as int, to as int) =~= kept);
    while to > from && strips(edge, chars[to - 1])
        invariant
            from <= to <= chars@.len(),
            trimmed_end(chars@.subrange(from as int, to as int), edge) == trimmed_end(kept, edge),
        decreases to,
    {
        assert(chars@.subrange(from as int, to as int).drop_last() =~= chars@.subrange(
            from as int,
            to - 1,
        ));
        to = to - 1;
    }
    part(chars, from, to)
}

fn find(chars: &Vec<char>, mark: char) -> (at: usize)
    ensures
        at == first_at(chars@, mark),
        at <= chars@.len(),
        at < chars@.len() ==> chars@[at as int] == mark,
{
    let mut at: usize = 0;
    assert(chars@.skip(0) =~= chars@);
    while at < chars.len() && chars[at] != mark
        invariant
            at <= chars@.len(),
            first_at(chars@, mark) == at + first_at(chars@.skip(at as int), mark),
        decreases chars@.len() - at,
    {
        assert(chars@.skip(at as int).drop_first() =~= chars@.skip(at + 1));
        at = at + 1;
    }
    at
}

fn split(chars: &Vec<char>, mark: char) -> (parts: Vec<Vec<char>>)
    ensures
        held(parts@) == pieces(chars@, mark),
{
    let mut parts: Vec<Vec<char>> = Vec::new();
    let mut current: Vec<char> = Vec::new();
    let mut i: usize = 0;
    assert(chars@.take(0) =~= Seq::empty());
    assert(held(parts@).push(current@) =~= pieces(chars@.take(0), mark));
    while i < chars.len()
        invariant
            i <= chars@.len(),
            held(parts@).push(current@) == pieces(chars@.take(i as int), mark),
        decreases chars@.len() - i,
    {
        let c: char = chars[i];
        let ghost before = held(parts@).push(current@);
        let ghost upto = chars@.take(i + 1);
        assert(upto.drop_last() =~= chars@.take(i as int));
        assert(upto.last() == c);
        if c == mark {
            parts.push(current);
            current = Vec::new();
            assert(held(parts@) =~= before);
        } else {
            assert(before.drop_last() =~= held(parts@));
            current.push(c);
        }
        assert(held(parts@).push(current@) =~= pieces(upto, mark));
        i = i + 1;
    }
    assert(chars@.take(i as int) =~= chars@);
    let ghost before = held(parts@).push(current@);
    parts.push(current);
    assert(held(parts@) =~= before);
    parts
}

/// Is a character a letter of the alphabet or an underscore?
pub open spec fn starts_name(c: char) -> bool {
    'a' <= c <= 'z' || 'A' <= c <= 'Z' || c == '_'
}

/// Is a character a decimal digit?
pub open spec fn is_digit(c: char) -> bool {
    '0' <= c <= '9'
}

/// Is a text a name: letters, digits and underscores, and no digit first?
pub open spec fn is_name(text: Seq<char>) -> bool {
    &&& text.len() > 0
    &&& starts_name(text[0])
    &&& forall|i: int|
        #![trigger text[i]]
        0 <= i < text.len() ==> starts_name(text[i]) || is_digit(text[i])
}

fn letter(c: char) -> (found: bool)
    ensures
        found == starts_name(c),
{
    ('a' <= c && c <= 'z') || ('A' <= c && c <= 'Z') || c == '_'
}

fn digit(c: char) -> (found: bool)
    ensures
        found == is_digit(c),
{
    '0' <= c && c <= '9'
}

fn names(text: &Vec<char>) -> (named: bool)
    ensures
        named == is_name(text@),
{
    if text.len() == 0 || !letter(text[0]) {
        return false;
    }
    let mut i: usize = 0;
    while i < text.len()
        invariant
            i <= text@.len(),
            forall|j: int|
                #![trigger text@[j]]
                0 <= j < i ==> starts_name(text@[j]) || is_digit(text@[j]),
        decreases text@.len() - i,
    {
        if !letter(text[i]) && !digit(text[i]) {
            return false;
        }
        i = i + 1;
    }
    true
}

/// Is a text a number: digits, and at least one?
pub open spec fn is_number(text: Seq<char>) -> bool {
    &&& text.len() > 0
    &&& forall|i: int| 0 <= i < text.len() ==> is_digit(#[trigger] text[i])
}

/// The number that digits stand for.
pub open spec fn number(text: Seq<char>) -> int
    decreases text.len(),
{
    if text.len() == 0 {
        0
    } else {
        10 * number(text.drop_last()) + (text.last() as int - '0' as int)
    }
}

/// What a line can be refused for.
#[derive(Clone, Copy, PartialEq, Eq, Structural, Debug)]
pub enum AbiFault {
    /// The name of a section is not a name.
    Section,
    /// Neither a section nor an assignment.
    Assignment,
    /// What is assigned to is not a name.
    Key,
    /// A constant is not a number.
    NotANumber,
    /// A constant is larger than the interface can carry.
    TooLarge,
}

/// Reads a number; the fault where it is none or too large.
fn read_number(text: &Vec<char>) -> (value: Result<i32, AbiFault>)
    ensures
        match value {
            Ok(value) => is_number(text@) && value == number(text@),
            Err(AbiFault::NotANumber) => !is_number(text@),
            Err(fault) => fault == AbiFault::TooLarge && is_number(text@) && number(text@)
                > i32::MAX,
        },
{
    if text.len() == 0 {
        return Err(AbiFault::NotANumber);
    }
    let mut value: u64 = 0;
    let mut over = false;
    let mut i: usize = 0;
    assert(text@.take(0) =~= Seq::empty());
    while i < text.len()
        invariant
            i <= text@.len(),
            forall|j: int| 0 <= j < i ==> is_digit(#[trigger] text@[j]),
            over ==> number(text@.take(i as int)) > i32::MAX,
            !over ==> value == number(text@.take(i as int)) && value <= i32::MAX,
        decreases text@.len() - i,
    {
        if !digit(text[i]) {
            return Err(AbiFault::NotANumber);
        }
        let ghost upto = text@.take(i + 1);
        assert(upto.drop_last() =~= text@.take(i as int));
        assert(upto.last() == text@[i as int]);
        if !over {
            let low: u32 = text[i] as u32 - '0' as u32;
            value = 10 * value + low as u64;
            if value > i32::MAX as u64 {
                over = true;
            }
        }
        i = i + 1;
    }
    assert(text@.take(i as int) =~= text@);
    if over {
        Err(AbiFault::TooLarge)
    } else {
        Ok(value as i32)
    }
}

/// What a file declares: the constants in order, and what is assigned in the
/// section of the callback.
pub struct AbiFile {
    pub constants: Vec<(String, i32)>,
    pub callback: Vec<(String, String)>,
}

/// What was read of a file, and the section that goes on.
#[verifier::ext_equal]
pub struct Abi {
    pub section: Seq<char>,
    pub constants: Seq<(Seq<char>, i32)>,
    pub callback: Seq<(Seq<char>, Seq<char>)>,
}

/// The constants as they are declared.
pub open spec fn constants_of(constants: Seq<(String, i32)>) -> Seq<(Seq<char>, i32)> {
    Seq::new(constants.len(), |i: int| (constants[i].0@, constants[i].1))
}

/// The assignments as they are made.
pub open spec fn assignments_of(assignments: Seq<(String, String)>) -> Seq<(Seq<char>, Seq<char>)> {
    Seq::new(assignments.len(), |i: int| (assignments[i].0@, assignments[i].1@))
}

/// What counts of a line: what stands before a comment, without blanks around
/// it.
pub open spec fn bare(line: Seq<char>) -> Seq<char> {
    trimmed(line.take(first_at(line, '#')), Edge::Blank)
}

/// Does a line start a section?
pub open spec fn is_heading(line: Seq<char>) -> bool {
    line[0] == '[' && line.last() == ']'
}

/// What is read once a line is.
pub open spec fn after_line(abi: Abi, raw: Seq<char>) -> Result<Abi, AbiFault> {
    let line = bare(raw);
    if line.len() == 0 {
        Ok(abi)
    } else if is_heading(line) {
        let name = line.subrange(1, line.len() - 1);
        if is_name(name) {
            Ok(Abi { section: name, ..abi })
        } else {
            Err(AbiFault::Section)
        }
    } else {
        let at = first_at(line, '=');
        let key = trimmed(line.take(at), Edge::Blank);
        let value = trimmed(line.skip(at + 1), Edge::Blank);
        if at == line.len() {
            Err(AbiFault::Assignment)
        } else if !is_name(key) {
            Err(AbiFault::Key)
        } else if abi.section == "callback"@ {
            Ok(Abi { callback: abi.callback.push((key, value)), ..abi })
        } else if !is_number(value) {
            Err(AbiFault::NotANumber)
        } else if number(value) > i32::MAX {
            Err(AbiFault::TooLarge)
        } else {
            Ok(Abi { constants: abi.constants.push((key, number(value) as i32)), ..abi })
        }
    }
}

/// What is read of lines; the number of the first faulty one, and its fault.
pub open spec fn after_lines(lines: Seq<Seq<char>>) -> Result<Abi, (nat, AbiFault)>
    decreases lines.len(),
{
    if lines.len() == 0 {
        Ok(Abi { section: Seq::empty(), constants: Seq::empty(), callback: Seq::empty() })
    } else {
        match after_lines(lines.drop_last()) {
            Err(error) => Err(error),
            Ok(abi) => match after_line(abi, lines.last()) {
                Ok(abi) => Ok(abi),
                Err(fault) => Err((lines.len(), fault)),
            },
        }
    }
}

/// Where a file is faulty.
#[derive(Clone, Copy, PartialEq, Eq, Structural, Debug)]
pub struct AbiError {
    /// The line, counted from one.
    pub line: usize,
    pub fault: AbiFault,
}

/// What has been read so far.
struct Reading {
    section: Vec<char>,
    file: AbiFile,
}

impl View for Reading {
    type V = Abi;

    closed spec fn view(&self) -> Abi {
        Abi {
            section: self.section@,
            constants: constants_of(self.file.constants@),
            callback: assignments_of(self.file.callback@),
        }
    }
}

impl Reading {
    /// Reads a line.
    fn read_line(&mut self, raw: &Vec<char>) -> (read: Result<(), AbiFault>)
        ensures
            match (read, after_line(old(self)@, raw@)) {
                (Ok(()), Ok(after)) => final(self)@ == after,
                (Err(fault), Err(expected)) => fault == expected,
                _ => false,
            },
    {
        let uncommented: Vec<char> = part(raw, 0, find(raw, '#'));
        assert(uncommented@ =~= raw@.take(first_at(raw@, '#')));
        let line: Vec<char> = trim(&uncommented, Edge::Blank);
        if line.len() == 0 {
            return Ok(());
        }
        if line[0] == '[' && line[line.len() - 1] == ']' {
            let name: Vec<char> = part(&line, 1, line.len() - 1);
            if !names(&name) {
                return Err(AbiFault::Section);
            }
            self.section = name;
            return Ok(());
        }
        let at: usize = find(&line, '=');
        if at == line.len() {
            return Err(AbiFault::Assignment);
        }
        let left: Vec<char> = part(&line, 0, at);
        let right: Vec<char> = part(&line, at + 1, line.len());
        assert(left@ =~= line@.take(at as int));
        assert(right@ =~= line@.skip(at + 1));
        let key: Vec<char> = trim(&left, Edge::Blank);
        let value: Vec<char> = trim(&right, Edge::Blank);
        if !names(&key) {
            return Err(AbiFault::Key);
        }
        if same_text(text_of_chars(&self.section).as_str(), "callback") {
            self.file.callback.push((text_of_chars(&key), text_of_chars(&value)));
            assert(assignments_of(self.file.callback@) =~= assignments_of(
                old(self).file.callback@,
            ).push((key@, value@)));
            return Ok(());
        }
        let constant: i32 = match read_number(&value) {
            Err(fault) => return Err(fault),
            Ok(constant) => constant,
        };
        self.file.constants.push((text_of_chars(&key), constant));
        assert(constants_of(self.file.constants@) =~= constants_of(old(self).file.constants@).push(
            (key@, constant),
        ));
        Ok(())
    }
}

/// Reads a file.
pub fn parse_abi(abi: &str) -> (parsed: Result<AbiFile, AbiError>)
    ensures
        match (parsed, after_lines(pieces(abi@, '\n'))) {
            (Ok(file), Ok(expected)) => {
                &&& constants_of(file.constants@) == expected.constants
                &&& assignments_of(file.callback@) == expected.callback
            },
            (Err(error), Err((line, fault))) => error.line == line && error.fault == fault,
            _ => false,
        },
{
    let lines: Vec<Vec<char>> = split(&chars_of(abi), '\n');
    let ghost all = held(lines@);
    let mut reading = Reading {
        section: Vec::new(),
        file: AbiFile { constants: Vec::new(), callback: Vec::new() },
    };
    proof {
        assert(all.take(0) =~= Seq::empty());
        assert(reading@.constants =~= Seq::empty());
        assert(reading@.callback =~= Seq::empty());
        assert(reading@.section =~= Seq::empty());
    }
    let mut i: usize = 0;
    while i < lines.len()
        invariant
            i <= lines@.len(),
            all == held(lines@),
            all == pieces(abi@, '\n'),
            after_lines(all.take(i as int)) == Ok::<Abi, (nat, AbiFault)>(reading@),
        decreases lines@.len() - i,
    {
        let ghost upto = all.take(i + 1);
        assert(upto.drop_last() =~= all.take(i as int));
        assert(upto.last() == lines@[i as int]@);
        match reading.read_line(&lines[i]) {
            Ok(()) => {},
            Err(fault) => {
                proof {
                    lemma_first_fault(all, i + 1);
                }
                return Err(AbiError { line: i + 1, fault });
            },
        }
        i = i + 1;
    }
    assert(all.take(i as int) =~= all);
    Ok(reading.file)
}

/// What follows a faulty line is not read.
proof fn lemma_first_fault(lines: Seq<Seq<char>>, count: int)
    requires
        0 <= count <= lines.len(),
        after_lines(lines.take(count)) is Err,
    ensures
        after_lines(lines) == after_lines(lines.take(count)),
    decreases lines.len() - count,
{
    if count == lines.len() {
        assert(lines.take(count) =~= lines);
    } else {
        let more = lines.take(count + 1);
        assert(more.drop_last() =~= lines.take(count));
        lemma_first_fault(lines, count + 1);
    }
}

/// A faulty line is named by its number, and what stands behind it makes no
/// difference.
pub proof fn law_first_fault_counts(lines: Seq<Seq<char>>, more: Seq<Seq<char>>)
    requires
        after_lines(lines) is Err,
    ensures
        after_lines(lines + more) == after_lines(lines),
        (after_lines(lines)->Err_0).0 <= lines.len(),
        (after_lines(lines)->Err_0).0 > 0,
    decreases lines.len(),
{
    assert((lines + more).take(lines.len() as int) =~= lines);
    lemma_first_fault(lines + more, lines.len() as int);
    if lines.len() > 0 && after_lines(lines.drop_last()) is Err {
        law_first_fault_counts(lines.drop_last(), more);
    }
}

/// Digits stand for no negative number.
proof fn lemma_number_is_not_negative(text: Seq<char>)
    requires
        forall|i: int| 0 <= i < text.len() ==> is_digit(#[trigger] text[i]),
    ensures
        number(text) >= 0,
    decreases text.len(),
{
    if text.len() > 0 {
        assert(is_digit(text[text.len() - 1]));
        lemma_number_is_not_negative(text.drop_last());
    }
}

/// What a file declares has a name, and no constant is negative.
pub proof fn law_declarations_are_sound(lines: Seq<Seq<char>>)
    requires
        after_lines(lines) is Ok,
    ensures
        ({
            let abi = after_lines(lines)->Ok_0;
            &&& forall|i: int|
                #![trigger abi.constants[i]]
                0 <= i < abi.constants.len() ==> is_name(abi.constants[i].0) && abi.constants[i].1
                    >= 0
            &&& forall|i: int|
                #![trigger abi.callback[i]]
                0 <= i < abi.callback.len() ==> is_name(abi.callback[i].0)
        }),
    decreases lines.len(),
{
    if lines.len() > 0 {
        law_declarations_are_sound(lines.drop_last());
        let line = bare(lines.last());
        let value = trimmed(line.skip(first_at(line, '=') + 1), Edge::Blank);
        if is_number(value) {
            lemma_number_is_not_negative(value);
        }
    }
}

/// A letter of the alphabet as a capital one.
pub open spec fn capital(c: char) -> char {
    if 'a' <= c <= 'z' {
        (c as u32 - 32) as char
    } else {
        c
    }
}

/// A text in capital letters.
pub open spec fn capitals(text: Seq<char>) -> Seq<char> {
    Seq::new(text.len(), |i: int| capital(text[i]))
}

/// A whole number as it is written.
pub open spec fn signed_decimal(value: int) -> Seq<char> {
    if value < 0 {
        "-"@ + decimal((-value) as nat)
    } else {
        decimal(value as nat)
    }
}

/// The declaration of a constant in a source file.
pub open spec fn constant_line(name: Seq<char>, value: i32) -> Seq<char> {
    "pub(crate) const "@ + capitals(name) + ": i32 = "@ + signed_decimal(value as int) + ";\n"@
}

/// The declarations of constants, one after the other.
pub open spec fn constant_lines(constants: Seq<(Seq<char>, i32)>) -> Seq<char>
    decreases constants.len(),
{
    if constants.len() == 0 {
        Seq::empty()
    } else {
        constant_lines(constants.drop_last()) + constant_line(
            constants.last().0,
            constants.last().1,
        )
    }
}

fn append_capitals(source: &mut String, name: &str)
    ensures
        final(source)@ == old(source)@ + capitals(name@),
{
    let chars: Vec<char> = chars_of(name);
    let mut i: usize = 0;
    assert(old(source)@ + capitals(chars@.take(0)) =~= old(source)@);
    while i < chars.len()
        invariant
            i <= chars@.len(),
            source@ == old(source)@ + capitals(chars@.take(i as int)),
        decreases chars@.len() - i,
    {
        let c: char = chars[i];
        let large: char = if 'a' <= c && c <= 'z' {
            (c as u8 - 32) as char
        } else {
            c
        };
        assert(large == capital(c));
        source.push(large);
        i = i + 1;
        assert(source@ =~= old(source)@ + capitals(chars@.take(i as int)));
    }
    assert(chars@.take(i as int) =~= chars@);
}

fn append_signed(source: &mut String, value: i32)
    ensures
        final(source)@ == old(source)@ + signed_decimal(value as int),
{
    if value < 0 {
        source.append("-");
        source.append(decimal_text((-(value as i64)) as usize).as_str());
        assert(source@ =~= old(source)@ + signed_decimal(value as int));
    } else {
        source.append(decimal_text(value as usize).as_str());
    }
}

impl AbiFile {
    /// Writes the constants as declarations of a source file.
    pub fn constants_source(&self) -> (source: String)
        ensures
            source@ == constant_lines(constants_of(self.constants@)),
    {
        let ghost all = constants_of(self.constants@);
        let mut source: String = String::new();
        let mut i: usize = 0;
        assert(all.take(0) =~= Seq::empty());
        while i < self.constants.len()
            invariant
                i <= self.constants@.len(),
                all == constants_of(self.constants@),
                source@ == constant_lines(all.take(i as int)),
            decreases self.constants@.len() - i,
        {
            let ghost before = source@;
            let ghost upto = all.take(i + 1);
            assert(upto.drop_last() =~= all.take(i as int));
            assert(upto.last() == all[i as int]);
            source.append("pub(crate) const ");
            append_capitals(&mut source, self.constants[i].0.as_str());
            source.append(": i32 = ");
            append_signed(&mut source, self.constants[i].1);
            source.append(";\n");
            assert(source@ =~= before + constant_line(all[i as int].0, all[i as int].1));
            i = i + 1;
        }
        assert(all.take(i as int) =~= all);
        source
    }
}

/// The value that is assigned to a name last.
pub open spec fn last_value(assignments: Seq<(Seq<char>, Seq<char>)>, name: Seq<char>) -> Option<
    Seq<char>,
>
    decreases assignments.len(),
{
    if assignments.len() == 0 {
        None
    } else if assignments.last().0 == name {
        Some(assignments.last().1)
    } else {
        last_value(assignments.drop_last(), name)
    }
}

fn value_of<'a>(assignments: &'a Vec<(String, String)>, name: &str) -> (value: Option<&'a str>)
    ensures
        value is Some <==> last_value(assignments_of(assignments@), name@) is Some,
        value is Some ==> Some(value->0@) == last_value(assignments_of(assignments@), name@),
{
    let ghost all = assignments_of(assignments@);
    let mut left: usize = assignments.len();
    assert(all.take(left as int) =~= all);
    while left > 0
        invariant
            left <= assignments@.len(),
            all == assignments_of(assignments@),
            last_value(all.take(left as int), name@) == last_value(all, name@),
        decreases left,
    {
        proof {
            assert(all.take(left as int).drop_last() =~= all.take(left - 1));
            assert(all.take(left as int).last() == all[left - 1]);
        }
        if same_text(assignments[left - 1].0.as_str(), name) {
            return Some(assignments[left - 1].1.as_str());
        }
        left = left - 1;
    }
    assert(all.take(0) =~= Seq::empty());
    None
}

/// The callback that events are delivered to.
pub struct Callback {
    pub name: String,
    pub module: String,
}

/// What the declaration of the callback can be refused for.
#[derive(Clone, Copy, PartialEq, Eq, Structural, Debug)]
pub enum CallbackFault {
    MissingName,
    MissingModule,
    MissingParams,
    /// Events take five slots of the same kind.
    WrongParams,
    MissingReturn,
    WrongReturn,
}

/// Are the parameters those of an event: five slots?
pub open spec fn takes_event(params: Seq<char>) -> bool {
    let slots = pieces(trimmed(params, Edge::Bracket), ',');
    &&& slots.len() == 5
    &&& forall|i: int|
        0 <= i < slots.len() ==> trimmed(trimmed(#[trigger] slots[i], Edge::Blank), Edge::Quote)
            == "i32"@
}

/// What is wrong with a declaration; `None` where nothing is.
pub open spec fn callback_fault(assignments: Seq<(Seq<char>, Seq<char>)>) -> Option<CallbackFault> {
    if last_value(assignments, "name"@) is None {
        Some(CallbackFault::MissingName)
    } else if last_value(assignments, "module"@) is None {
        Some(CallbackFault::MissingModule)
    } else if last_value(assignments, "params"@) is None {
        Some(CallbackFault::MissingParams)
    } else if !takes_event(last_value(assignments, "params"@)->0) {
        Some(CallbackFault::WrongParams)
    } else if last_value(assignments, "return"@) is None {
        Some(CallbackFault::MissingReturn)
    } else if trimmed(last_value(assignments, "return"@)->0, Edge::Quote) != "i32"@ {
        Some(CallbackFault::WrongReturn)
    } else {
        None
    }
}

fn strip_text(text: &str, edge: Edge) -> (rest: String)
    ensures
        rest@ == trimmed(text@, edge),
{
    text_of_chars(&trim(&chars_of(text), edge))
}

fn declares_event(params: &str) -> (five: bool)
    ensures
        five == takes_event(params@),
{
    let slots: Vec<Vec<char>> = split(&trim(&chars_of(params), Edge::Bracket), ',');
    let ghost all = pieces(trimmed(params@, Edge::Bracket), ',');
    assert(all == held(slots@));
    if slots.len() != 5 {
        return false;
    }
    let mut i: usize = 0;
    while i < slots.len()
        invariant
            i <= slots@.len(),
            all == held(slots@),
            all == pieces(trimmed(params@, Edge::Bracket), ','),
            forall|j: int|
                0 <= j < i ==> trimmed(trimmed(#[trigger] all[j], Edge::Blank), Edge::Quote)
                    == "i32"@,
        decreases slots@.len() - i,
    {
        let slot: Vec<char> = trim(&trim(&slots[i], Edge::Blank), Edge::Quote);
        assert(all[i as int] == slots@[i as int]@);
        if !same_text(text_of_chars(&slot).as_str(), "i32") {
            return false;
        }
        i = i + 1;
    }
    true
}

impl AbiFile {
    /// The callback that the file declares.
    pub fn callback(&self) -> (callback: Result<Callback, CallbackFault>)
        ensures
            match callback {
                Ok(callback) => {
                    let assignments = assignments_of(self.callback@);
                    &&& callback_fault(assignments) is None
                    &&& callback.name@ == trimmed(last_value(assignments, "name"@)->0, Edge::Quote)
                    &&& callback.module@ == trimmed(
                        last_value(assignments, "module"@)->0,
                        Edge::Quote,
                    )
                },
                Err(fault) => callback_fault(assignments_of(self.callback@)) == Some(fault),
            },
    {
        let name: &str = match value_of(&self.callback, "name") {
            None => return Err(CallbackFault::MissingName),
            Some(name) => name,
        };
        let module: &str = match value_of(&self.callback, "module") {
            None => return Err(CallbackFault::MissingModule),
            Some(module) => module,
        };
        match value_of(&self.callback, "params") {
            None => return Err(CallbackFault::MissingParams),
            Some(params) => {
                if !declares_event(params) {
                    return Err(CallbackFault::WrongParams);
                }
            },
        }
        match value_of(&self.callback, "return") {
            None => return Err(CallbackFault::MissingReturn),
            Some(answer) => {
                if !same_text(strip_text(answer, Edge::Quote).as_str(), "i32") {
                    return Err(CallbackFault::WrongReturn);
                }
            },
        }
        Ok(
            Callback {
                name: strip_text(name, Edge::Quote),
                module: strip_text(module, Edge::Quote),
            },
        )
    }
}

/// A character as it stands in a symbol.
pub open spec fn escaped_char(c: char) -> Seq<char> {
    if c == '_' {
        "__"@
    } else if c == '-' {
        "_2d"@
    } else {
        seq![c]
    }
}

/// A part of a path as it stands in a symbol.
pub open spec fn escaped(text: Seq<char>) -> Seq<char>
    decreases text.len(),
{
    if text.len() == 0 {
        Seq::empty()
    } else {
        escaped(text.drop_last()) + escaped_char(text.last())
    }
}

/// Writes a part of a path as it stands in a symbol.
pub fn escape_mangling_component(s: &str) -> (escape: String)
    ensures
        escape@ == escaped(s@),
{
    escape_chars(&chars_of(s))
}

fn escape_chars(chars: &Vec<char>) -> (escape: String)
    ensures
        escape@ == escaped(chars@),
{
    let mut escape: String = String::new();
    let mut i: usize = 0;
    assert(chars@.take(0) =~= Seq::empty());
    while i < chars.len()
        invariant
            i <= chars@.len(),
            escape@ == escaped(chars@.take(i as int)),
        decreases chars@.len() - i,
    {
        let c: char = chars[i];
        let ghost upto = chars@.take(i + 1);
        assert(upto.drop_last() =~= chars@.take(i as int));
        assert(upto.last() == c);
        let ghost before = escape@;
        if c == '_' {
            escape.append("__");
        } else if c == '-' {
            escape.append("_2d");
        } else {
            escape.push(c);
            assert(before.push(c) =~= before + seq![c]);
        }
        i = i + 1;
    }
    assert(chars@.take(i as int) =~= chars@);
    escape
}

/// A part of a symbol behind the number of its bytes.
pub open spec fn sized(part: Seq<char>) -> Seq<char> {
    decimal(encode_utf8(part).len()) + part
}

/// The parts of a path, each escaped and behind the number of its bytes.
pub open spec fn sized_parts(parts: Seq<Seq<char>>) -> Seq<char>
    decreases parts.len(),
{
    if parts.len() == 0 {
        Seq::empty()
    } else {
        sized_parts(parts.drop_last()) + sized(escaped(parts.last()))
    }
}

/// The symbol of a function in a module: how many parts the path of the module
/// has, the parts, and the function.
pub open spec fn symbol(module: Seq<char>, name: Seq<char>) -> Seq<char> {
    let parts = pieces(module, '/');
    "_M0FP"@ + decimal(parts.len()) + sized_parts(parts) + sized(escaped(name))
}

fn append_sized(symbol: &mut String, part: &str)
    ensures
        final(symbol)@ == old(symbol)@ + sized(part@),
{
    symbol.append(decimal_text(part.as_bytes().len()).as_str());
    symbol.append(part);
    assert(symbol@ =~= old(symbol)@ + sized(part@));
}

/// Writes the symbol that the callback is linked under.
pub fn mangled_callback_symbol(module: &str, name: &str) -> (mangled: String)
    ensures
        mangled@ == symbol(module@, name@),
{
    let parts: Vec<Vec<char>> = split(&chars_of(module), '/');
    let ghost all = held(parts@);
    let mut mangled: String = "_M0FP".to_owned();
    mangled.append(decimal_text(parts.len()).as_str());
    let ghost head = mangled@;
    let mut i: usize = 0;
    assert(all.take(0) =~= Seq::empty());
    assert(head + sized_parts(all.take(0)) =~= head);
    while i < parts.len()
        invariant
            i <= parts@.len(),
            all == held(parts@),
            mangled@ == head + sized_parts(all.take(i as int)),
        decreases parts@.len() - i,
    {
        let ghost upto = all.take(i + 1);
        assert(upto.drop_last() =~= all.take(i as int));
        assert(upto.last() == parts@[i as int]@);
        append_sized(&mut mangled, escape_chars(&parts[i]).as_str());
        assert(mangled@ =~= head + sized_parts(upto));
        i = i + 1;
    }
    assert(all.take(i as int) =~= all);
    append_sized(&mut mangled, escape_mangling_component(name).as_str());
    mangled
}

/// The symbol that is linked against, and whether the two that are known
/// disagree.
pub struct LinkName {
    pub symbol: String,
    pub disagrees: bool,
}

/// Chooses the symbol that is linked against: one that was found in the build
/// goes before the computed one, and a disagreement is reported.
pub fn choose_link_name(computed: String, extracted: &str) -> (chosen: LinkName)
    ensures
        ({
            let found = trimmed(extracted@, Edge::Blank);
            &&& chosen.symbol@ == if found.len() == 0 {
                computed@
            } else {
                found
            }
            &&& chosen.disagrees == (found.len() > 0 && found != computed@)
        }),
{
    let found: Vec<char> = trim(&chars_of(extracted), Edge::Blank);
    if found.len() == 0 {
        return LinkName { symbol: computed, disagrees: false };
    }
    let symbol: String = text_of_chars(&found);
    let agrees = same_text(symbol.as_str(), computed.as_str());
    LinkName { symbol, disagrees: !agrees }
}

/// A text is escaped from its start on as well.
proof fn lemma_escaped_from_start(text: Seq<char>)
    requires
        text.len() > 0,
    ensures
        escaped(text) == escaped_char(text[0]) + escaped(text.drop_first()),
    decreases text.len(),
{
    let rest = text.drop_first();
    if text.len() == 1 {
        assert(text.drop_last() =~= Seq::empty());
        assert(rest =~= Seq::empty());
        assert(escaped(text.drop_last()) =~= Seq::empty());
        assert(escaped(rest) =~= Seq::empty());
    } else {
        lemma_escaped_from_start(text.drop_last());
        assert(text.drop_last().drop_first() =~= rest.drop_last());
        assert(rest.last() == text.last());
        assert(escaped(text) =~= escaped_char(text[0]) + (escaped(rest.drop_last()) + escaped_char(
            text.last(),
        )));
    }
}

/// Texts that are escaped alike are the same.
pub proof fn law_escaping_keeps_texts_apart(a: Seq<char>, b: Seq<char>)
    requires
        escaped(a) == escaped(b),
    ensures
        a == b,
    decreases a.len(),
{
    reveal_strlit("__");
    reveal_strlit("_2d");
    if a.len() > 0 {
        lemma_escaped_from_start(a);
    }
    if b.len() > 0 {
        lemma_escaped_from_start(b);
    }
    if a.len() > 0 && b.len() > 0 {
        let first = escaped_char(a[0]);
        assert(escaped(a)[0] == first[0]);
        assert(escaped(b)[0] == escaped_char(b[0])[0]);
        if a[0] == '_' || a[0] == '-' {
            assert(escaped(a)[1] == first[1]);
            assert(escaped(b)[1] == escaped_char(b[0])[1]);
        }
        assert(a[0] == b[0]);
        assert(escaped(a).skip(first.len() as int) =~= escaped(a.drop_first()));
        assert(escaped(b).skip(first.len() as int) =~= escaped(b.drop_first()));
        law_escaping_keeps_texts_apart(a.drop_first(), b.drop_first());
        assert(a =~= seq![a[0]] + a.drop_first());
        assert(b =~= seq![b[0]] + b.drop_first());
    }
    assert(a =~= b);
}

/// Does all of a text come off?
pub open spec fn all_off(text: Seq<char>, edge: Edge) -> bool {
    forall|i: int| 0 <= i < text.len() ==> comes_off(edge, #[trigger] text[i])
}

/// Does nothing come off the ends of a text?
pub open spec fn stays_whole(text: Seq<char>, edge: Edge) -> bool {
    text.len() > 0 ==> !comes_off(edge, text[0]) && !comes_off(edge, text.last())
}

proof fn lemma_trimmed_start(before: Seq<char>, text: Seq<char>, edge: Edge)
    requires
        all_off(before, edge),
        text.len() > 0 ==> !comes_off(edge, text[0]),
    ensures
        trimmed_start(before + text, edge) == text,
    decreases before.len(),
{
    if before.len() == 0 {
        assert(before + text =~= text);
    } else {
        assert(comes_off(edge, before[0]));
        assert((before + text).drop_first() =~= before.drop_first() + text);
        lemma_trimmed_start(before.drop_first(), text, edge);
    }
}

proof fn lemma_trimmed_end(text: Seq<char>, after: Seq<char>, edge: Edge)
    requires
        all_off(after, edge),
        text.len() > 0 ==> !comes_off(edge, text.last()),
    ensures
        trimmed_end(text + after, edge) == text,
    decreases after.len(),
{
    if after.len() == 0 {
        assert(text + after =~= text);
    } else {
        assert(comes_off(edge, after[after.len() - 1]));
        assert((text + after).drop_last() =~= text + after.drop_last());
        assert((text + after).last() == after.last());
        lemma_trimmed_end(text, after.drop_last(), edge);
    }
}

/// Trimming takes off what comes off both ends, and nothing else.
pub proof fn law_trimming_keeps_the_middle(
    before: Seq<char>,
    text: Seq<char>,
    after: Seq<char>,
    edge: Edge,
)
    requires
        all_off(before, edge),
        all_off(after, edge),
        stays_whole(text, edge),
    ensures
        trimmed(before + text + after, edge) == text,
{
    if text.len() == 0 {
        let all = before + text + after;
        assert(all =~= (before + after) + text);
        assert forall|i: int| 0 <= i < (before + after).len() implies comes_off(
            edge,
            #[trigger] (before + after)[i],
        ) by {
            if i < before.len() {
                assert(comes_off(edge, before[i]));
            } else {
                assert(comes_off(edge, after[i - before.len()]));
            }
        }
        lemma_trimmed_start(before + after, text, edge);
    } else {
        assert(before + text + after =~= before + (text + after));
        lemma_trimmed_start(before, text + after, edge);
        lemma_trimmed_end(text, after, edge);
    }
}

/// A character is found where it stands first; behind the text where it does not
/// stand in it.
pub proof fn law_first_place_is_found(before: Seq<char>, mark: char, after: Seq<char>)
    requires
        !before.contains(mark),
    ensures
        first_at(before + seq![mark] + after, mark) == before.len(),
        first_at(before, mark) == before.len(),
    decreases before.len(),
{
    let text = before + seq![mark] + after;
    if before.len() > 0 {
        let rest = before.drop_first();
        assert(before[0] != mark);
        if rest.contains(mark) {
            let i = choose|i: int| 0 <= i < rest.len() && rest[i] == mark;
            assert(before[i + 1] == mark);
        }
        law_first_place_is_found(rest, mark, after);
        assert(text.drop_first() =~= rest + seq![mark] + after);
    }
}

proof fn lemma_pieces_are_there(text: Seq<char>, mark: char)
    ensures
        pieces(text, mark).len() > 0,
    decreases text.len(),
{
    if text.len() > 0 {
        lemma_pieces_are_there(text.drop_last(), mark);
    }
}

/// A text falls apart at every place of a character, and nowhere else.
pub proof fn law_texts_fall_apart_at_marks(before: Seq<char>, mark: char, after: Seq<char>)
    ensures
        pieces(before + seq![mark] + after, mark) == pieces(before, mark) + pieces(after, mark),
        !after.contains(mark) ==> pieces(after, mark) == seq![after],
    decreases after.len(),
{
    let text = before + seq![mark] + after;
    if after.len() == 0 {
        assert(text.drop_last() =~= before);
        assert(text.last() == mark);
        assert(pieces(before, mark).push(Seq::empty()) =~= pieces(before, mark) + pieces(
            after,
            mark,
        ));
        assert(after =~= Seq::<char>::empty());
    } else {
        let fewer = after.drop_last();
        law_texts_fall_apart_at_marks(before, mark, fewer);
        lemma_pieces_are_there(fewer, mark);
        assert(text.drop_last() =~= before + seq![mark] + fewer);
        assert(text.last() == after.last());
        let (head, tail) = (pieces(before, mark), pieces(fewer, mark));
        assert((head + tail).last() == tail.last());
        assert((head + tail).drop_last() =~= head + tail.drop_last());
        assert(pieces(text, mark) =~= head + pieces(after, mark));
        if !after.contains(mark) {
            assert(after[after.len() - 1] != mark);
            if fewer.contains(mark) {
                let i = choose|i: int| 0 <= i < fewer.len() && fewer[i] == mark;
                assert(after[i] == mark);
            }
            assert(fewer.push(after.last()) =~= after);
            assert(pieces(after, mark) =~= seq![after]);
        }
    }
}

/// A comment does not count, and neither do blanks around a line.
pub proof fn law_comments_and_blanks_do_not_count(
    abi: Abi,
    before: Seq<char>,
    line: Seq<char>,
    after: Seq<char>,
    comment: Seq<char>,
)
    requires
        all_off(before, Edge::Blank),
        all_off(after, Edge::Blank),
        stays_whole(line, Edge::Blank),
        !line.contains('#'),
    ensures
        after_line(abi, before + line + after + seq!['#'] + comment) == after_line(abi, line),
        after_line(abi, before + line + after) == after_line(abi, line),
        line.len() == 0 ==> after_line(abi, line) == Ok::<Abi, AbiFault>(abi),
{
    let padded = before + line + after;
    lemma_no_mark(before, line, after);
    law_first_place_is_found(padded, '#', comment);
    law_first_place_is_found(line, '#', comment);
    let whole = padded + seq!['#'] + comment;
    assert(whole.take(padded.len() as int) =~= padded);
    assert(padded.take(padded.len() as int) =~= padded);
    assert(line.take(line.len() as int) =~= line);
    law_trimming_keeps_the_middle(before, line, after, Edge::Blank);
    law_trimming_keeps_the_middle(Seq::empty(), line, Seq::empty(), Edge::Blank);
    assert(Seq::<char>::empty() + line + Seq::<char>::empty() =~= line);
}

proof fn lemma_no_mark(before: Seq<char>, line: Seq<char>, after: Seq<char>)
    requires
        all_off(before, Edge::Blank),
        all_off(after, Edge::Blank),
        !line.contains('#'),
    ensures
        !(before + line + after).contains('#'),
{
    let padded = before + line + after;
    if padded.contains('#') {
        let i = choose|i: int| 0 <= i < padded.len() && padded[i] == '#';
        if i < before.len() {
            assert(comes_off(Edge::Blank, before[i]));
        } else if i < before.len() + line.len() {
            assert(line[i - before.len()] == '#');
        } else {
            assert(comes_off(Edge::Blank, after[i - before.len() - line.len()]));
        }
        assert(false);
    }
}

/// A name in brackets starts a section, and nothing else is read of the line; what is
/// no name is refused.
pub proof fn law_headings_start_sections(abi: Abi, name: Seq<char>)
    requires
        !name.contains('#'),
    ensures
        is_name(name) ==> after_line(abi, seq!['['] + name + seq![']']) == Ok::<Abi, AbiFault>(
            (Abi { section: name, constants: abi.constants, callback: abi.callback }),
        ),
        !is_name(name) ==> after_line(abi, seq!['['] + name + seq![']']) == Err::<Abi, AbiFault>(
            AbiFault::Section,
        ),
{
    let line = seq!['['] + name + seq![']'];
    if line.contains('#') {
        let i = choose|i: int| 0 <= i < line.len() && line[i] == '#';
        assert(name[i - 1] == '#');
    }
    law_first_place_is_found(line, '#', Seq::empty());
    assert(line.take(line.len() as int) =~= line);
    law_trimming_keeps_the_middle(Seq::empty(), line, Seq::empty(), Edge::Blank);
    assert(Seq::<char>::empty() + line + Seq::<char>::empty() =~= line);
    assert(line.subrange(1, line.len() - 1) =~= name);
}

/// Where a name is assigned to, blanks around it and around the value do not count: in
/// the section of the callback the value is kept as it stands, and elsewhere a number is
/// read.
pub proof fn law_assignments_are_read(
    abi: Abi,
    key: Seq<char>,
    between: Seq<char>,
    gap: Seq<char>,
    value: Seq<char>,
)
    requires
        is_name(key),
        all_off(between, Edge::Blank),
        all_off(gap, Edge::Blank),
        stays_whole(value, Edge::Blank),
        value.len() > 0,
        !value.contains('#'),
    ensures
        ({
            let read = after_line(abi, key + between + seq!['='] + gap + value);
            &&& abi.section == "callback"@ ==> read == Ok::<Abi, AbiFault>(
                (Abi { callback: abi.callback.push((key, value)), ..abi }),
            )
            &&& abi.section != "callback"@ && is_number(value) && number(value) <= i32::MAX ==> {
                &&& read is Ok
                &&& read->Ok_0.section == abi.section
                &&& read->Ok_0.callback == abi.callback
                &&& read->Ok_0.constants.len() == abi.constants.len() + 1
                &&& read->Ok_0.constants.drop_last() == abi.constants
                &&& read->Ok_0.constants.last().0 == key
                &&& read->Ok_0.constants.last().1 == number(value)
            }
            &&& abi.section != "callback"@ && !is_number(value) ==> read == Err::<Abi, AbiFault>(
                AbiFault::NotANumber,
            )
            &&& abi.section != "callback"@ && is_number(value) && number(value) > i32::MAX ==> read
                == Err::<Abi, AbiFault>(AbiFault::TooLarge)
        }),
{
    let line = key + between + seq!['='] + gap + value;
    let left = key + between;
    let right = gap + value;
    assert(line =~= left + seq!['='] + right);
    lemma_line_is_bare(key, between, gap, value);
    if left.contains('=') {
        let i = choose|i: int| 0 <= i < left.len() && left[i] == '=';
        if i < key.len() {
            assert(key[i] == '=');
        } else {
            assert(comes_off(Edge::Blank, between[i - key.len()]));
        }
        assert(false);
    }
    law_first_place_is_found(left, '=', right);
    assert(line.take(left.len() as int) =~= Seq::<char>::empty() + key + between);
    assert(line.skip(left.len() as int + 1) =~= gap + value + Seq::<char>::empty());
    law_trimming_keeps_the_middle(Seq::empty(), key, between, Edge::Blank);
    law_trimming_keeps_the_middle(gap, value, Seq::empty(), Edge::Blank);
    let read = after_line(abi, line);
    if abi.section != "callback"@ && is_number(value) && number(value) <= i32::MAX {
        lemma_number_is_not_negative(value);
        assert(read->Ok_0.constants.drop_last() =~= abi.constants);
    }
}

proof fn lemma_line_is_bare(key: Seq<char>, between: Seq<char>, gap: Seq<char>, value: Seq<char>)
    requires
        is_name(key),
        all_off(between, Edge::Blank),
        all_off(gap, Edge::Blank),
        stays_whole(value, Edge::Blank),
        value.len() > 0,
        !value.contains('#'),
    ensures
        bare(key + between + seq!['='] + gap + value) == key + between + seq!['='] + gap + value,
        !comes_off(Edge::Blank, key.last()),
        !comes_off(Edge::Blank, key[0]),
        key[0] != '[',
{
    let line = key + between + seq!['='] + gap + value;
    assert(starts_name(key[0]));
    assert(starts_name(key[key.len() - 1]) || is_digit(key[key.len() - 1]));
    if line.contains('#') {
        let i = choose|i: int| 0 <= i < line.len() && line[i] == '#';
        let (a, b, c) = (
            key.len() as int,
            (key + between).len() as int,
            (key + between + seq!['='] + gap).len() as int,
        );
        if i < a {
            assert(key[i] == '#');
        } else if i < b {
            assert(comes_off(Edge::Blank, between[i - a]));
        } else if i == b {
            assert(line[i] == '=');
        } else if i < c {
            assert(comes_off(Edge::Blank, gap[i - b - 1]));
        } else {
            assert(value[i - c] == '#');
        }
        assert(false);
    }
    law_first_place_is_found(line, '#', Seq::empty());
    assert(line.take(line.len() as int) =~= line);
    assert(line[0] == key[0]);
    assert(line.last() == value.last());
    law_trimming_keeps_the_middle(Seq::empty(), line, Seq::empty(), Edge::Blank);
    assert(Seq::<char>::empty() + line + Seq::<char>::empty() =~= line);
}

proof fn lemma_digit(k: int)
    requires
        0 <= k < 10,
    ensures
        DIGITS@.len() == 10,
        is_digit(DIGITS@[k]),
        DIGITS@[k] as int == '0' as int + k,
{
    reveal_strlit("0123456789");
    assert(k == 0 ==> DIGITS@[k] == '0');
    assert(k == 1 ==> DIGITS@[k] == '1');
    assert(k == 2 ==> DIGITS@[k] == '2');
    assert(k == 3 ==> DIGITS@[k] == '3');
    assert(k == 4 ==> DIGITS@[k] == '4');
    assert(k == 5 ==> DIGITS@[k] == '5');
    assert(k == 6 ==> DIGITS@[k] == '6');
    assert(k == 7 ==> DIGITS@[k] == '7');
    assert(k == 8 ==> DIGITS@[k] == '8');
    assert(k == 9 ==> DIGITS@[k] == '9');
}

/// A number that is written in decimal reads back, and has no zeros in front.
pub proof fn law_decimal_reads_back(value: nat)
    ensures
        is_number(decimal(value)),
        number(decimal(value)) == value,
        decimal(value)[0] == '0' ==> value == 0,
    decreases value,
{
    lemma_digit((value % 10) as int);
    let text = decimal(value);
    if value < 10 {
        lemma_digit(value as int);
        assert(text.drop_last() =~= Seq::empty());
        assert(number(text.drop_last()) == 0);
        assert forall|i: int| 0 <= i < text.len() implies is_digit(#[trigger] text[i]) by {}
    } else {
        law_decimal_reads_back(value / 10);
        let front = decimal(value / 10);
        assert(text.drop_last() =~= front);
        assert forall|i: int| 0 <= i < text.len() implies is_digit(#[trigger] text[i]) by {
            if i < front.len() {
                assert(is_digit(front[i]));
            }
        }
        assert(text[0] == front[0]);
    }
}

/// A negative number is written as its magnitude behind a sign, and every other one
/// without.
pub proof fn law_signs_stand_in_front(value: int)
    ensures
        value >= 0 ==> number(signed_decimal(value)) == value && is_number(signed_decimal(value)),
        value < 0 ==> signed_decimal(value)[0] == '-' && number(signed_decimal(value).skip(1))
            == -value,
{
    if value >= 0 {
        law_decimal_reads_back(value as nat);
    } else {
        law_decimal_reads_back((-value) as nat);
        reveal_strlit("-");
        assert("-"@.len() == 1 && "-"@[0] == '-');
        assert(signed_decimal(value).skip(1) =~= decimal((-value) as nat));
    }
}

/// Small letters become the capital ones, and every other character stays.
pub proof fn law_capitals_keep_the_rest(text: Seq<char>, i: int)
    requires
        0 <= i < text.len(),
    ensures
        capitals(text).len() == text.len(),
        !('a' <= text[i] <= 'z') ==> capitals(text)[i] == text[i],
        'a' <= text[i] <= 'z' ==> capitals(text)[i] as int - 'A' as int == text[i] as int - 'a' as int,
{
}

/// Each constant has one line, and the lines stand in the order of the declarations.
pub proof fn law_constants_are_written_in_order(
    first: Seq<(Seq<char>, i32)>,
    second: Seq<(Seq<char>, i32)>,
    name: Seq<char>,
    value: i32,
)
    ensures
        constant_lines(first + second) == constant_lines(first) + constant_lines(second),
        constant_lines(seq![(name, value)]) == "pub(crate) const "@ + capitals(name) + ": i32 = "@
            + signed_decimal(value as int) + ";\n"@,
    decreases second.len(),
{
    let one = seq![(name, value)];
    assert(one.drop_last() =~= Seq::empty());
    assert(constant_lines(one.drop_last()) =~= Seq::empty());
    assert(constant_lines(one) =~= constant_line(name, value));
    if second.len() == 0 {
        assert(first + second =~= first);
        assert(constant_lines(first) + constant_lines(second) =~= constant_lines(first));
    } else {
        law_constants_are_written_in_order(first, second.drop_last(), name, value);
        assert((first + second).drop_last() =~= first + second.drop_last());
        assert((first + second).last() == second.last());
        assert(constant_lines(first + second) =~= constant_lines(first) + constant_lines(second));
    }
}

/// What is assigned to a name last counts, and assignments to other names do not.
pub proof fn law_last_assignment_counts(
    assignments: Seq<(Seq<char>, Seq<char>)>,
    name: Seq<char>,
    value: Seq<char>,
    other: Seq<char>,
)
    ensures
        last_value(assignments.push((name, value)), name) == Some(value),
        other != name ==> last_value(assignments.push((name, value)), other) == last_value(
            assignments,
            other,
        ),
        last_value(Seq::empty(), name) is None,
{
    assert(assignments.push((name, value)).drop_last() =~= assignments);
}

/// A callback is accepted exactly where it has a name and a module, takes an event and
/// answers a number; of what is missing or wrong the first thing is reported.
pub proof fn law_callbacks_are_refused_for_a_reason(assignments: Seq<(Seq<char>, Seq<char>)>)
    ensures
        ({
            let fault = callback_fault(assignments);
            let named = last_value(assignments, "name"@) is Some;
            let placed = last_value(assignments, "module"@) is Some;
            let params = last_value(assignments, "params"@);
            let answer = last_value(assignments, "return"@);
            let takes = params is Some && takes_event(params->0);
            let answers = answer is Some && trimmed(answer->0, Edge::Quote) == "i32"@;
            &&& fault is None <==> named && placed && takes && answers
            &&& fault == Some(CallbackFault::MissingName) <==> !named
            &&& fault == Some(CallbackFault::MissingModule) <==> named && !placed
            &&& fault == Some(CallbackFault::MissingParams) <==> named && placed && params is None
            &&& fault == Some(CallbackFault::WrongParams) <==> named && placed && params is Some
                && !takes
            &&& fault == Some(CallbackFault::MissingReturn) <==> named && placed && takes
                && answer is None
            &&& fault == Some(CallbackFault::WrongReturn) <==> named && placed && takes
                && answer is Some && !answers
        }),
{
}

/// Texts are escaped character by character: an underscore is doubled, a hyphen becomes
/// its code, and everything else stays.
pub proof fn law_texts_are_escaped_by_character(first: Seq<char>, second: Seq<char>, c: char)
    ensures
        escaped(first + second) == escaped(first) + escaped(second),
        c != '_' && c != '-' ==> escaped(seq![c]) == seq![c],
        escaped(seq!['_']) == seq!['_', '_'],
        escaped(seq!['-']) == seq!['_', '2', 'd'],
    decreases second.len(),
{
    reveal_strlit("__");
    reveal_strlit("_2d");
    lemma_escaped_from_start(seq![c]);
    lemma_escaped_from_start(seq!['_']);
    lemma_escaped_from_start(seq!['-']);
    assert(seq![c].drop_first() =~= Seq::empty());
    assert(seq!['_'].drop_first() =~= Seq::empty());
    assert(seq!['-'].drop_first() =~= Seq::empty());
    assert(escaped(Seq::empty()) =~= Seq::empty());
    assert(escaped(seq![c]) =~= escaped_char(c));
    assert(escaped(seq!['_']) =~= "__"@);
    assert(escaped(seq!['-']) =~= "_2d"@);
    assert("__"@ =~= seq!['_', '_']);
    assert("_2d"@ =~= seq!['_', '2', 'd']);
    if second.len() == 0 {
        assert(first + second =~= first);
        assert(escaped(first) + escaped(second) =~= escaped(first));
    } else {
        law_texts_are_escaped_by_character(first, second.drop_last(), c);
        assert((first + second).drop_last() =~= first + second.drop_last());
        assert((first + second).last() == second.last());
        assert(escaped(first + second) =~= escaped(first) + escaped(second));
    }
}

/// The symbol of a function names the parts of its module one by one, and their number
/// in front of them; each part stands behind the number of its bytes.
pub proof fn law_symbols_name_every_part(first: Seq<char>, second: Seq<char>, name: Seq<char>)
    requires
        !first.contains('/'),
        !second.contains('/'),
    ensures
        symbol(first, name) == "_M0FP"@ + decimal(1) + sized(escaped(first)) + sized(escaped(name)),
        symbol(first + seq!['/'] + second, name) == "_M0FP"@ + decimal(2) + sized(escaped(first))
            + sized(escaped(second)) + sized(escaped(name)),
        sized(first).skip(decimal(encode_utf8(first).len()).len() as int) == first,
        number(sized(first).take(decimal(encode_utf8(first).len()).len() as int)) == encode_utf8(
            first,
        ).len(),
{
    law_texts_fall_apart_at_marks(first, '/', second);
    law_texts_fall_apart_at_marks(Seq::empty(), '/', first);
    let one = seq![first];
    let two = seq![first] + seq![second];
    assert(one.drop_last() =~= Seq::empty());
    assert(sized_parts(one.drop_last()) =~= Seq::empty());
    assert(sized_parts(one) =~= sized(escaped(first)));
    assert(two.drop_last() =~= one);
    assert(two.last() == second);
    assert(sized_parts(two) =~= sized(escaped(first)) + sized(escaped(second)));
    assert(symbol(first + seq!['/'] + second, name) =~= "_M0FP"@ + decimal(2) + sized(escaped(first))
        + sized(escaped(second)) + sized(escaped(name)));
    let count = encode_utf8(first).len();
    law_decimal_reads_back(count);
    assert(sized(first).skip(decimal(count).len() as int) =~= first);
    assert(sized(first).take(decimal(count).len() as int) =~= decimal(count));
}

/// What comes off: blanks, quotes, or brackets of both kinds.
pub proof fn law_edges_come_off(c: char)
    ensures
        comes_off(Edge::Quote, c) <==> c as int == 0x22,
        comes_off(Edge::Bracket, c) <==> c as int == 0x5b || c as int == 0x5d,
        c == ' ' || c == '\t' || c == '\r' || c == '\n' ==> comes_off(Edge::Blank, c),
        c as int > 0x20 && (c as int) < 0x7f ==> !comes_off(Edge::Blank, c),
{
}

/// Names are spelled with the letters of the alphabet, digits and underscores, and start
/// with no digit; what is appended to a name in these characters makes another name.
pub proof fn law_names_are_spelled(text: Seq<char>, c: char)
    ensures
        is_name(text) ==> (is_name(text.push(c)) <==> 0x61 <= c as int <= 0x7a || 0x41 <= c as int
            <= 0x5a || 0x30 <= c as int <= 0x39 || c as int == 0x5f),
        is_name(seq![c]) <==> 0x61 <= c as int <= 0x7a || 0x41 <= c as int <= 0x5a || c as int
            == 0x5f,
        !is_name(Seq::empty()),
        text.len() > 0 && is_name(text.push(c)) ==> is_name(text),
{
    let longer = text.push(c);
    let last = text.len() as int;
    assert(longer[last] == c);
    assert(seq![c][0] == c);
    assert forall|i: int| 0 <= i < last implies #[trigger] longer[i] == text[i] by {}
    if is_name(text) && (starts_name(c) || is_digit(c)) {
        assert(longer[0] == text[0]);
        assert forall|i: int| #![trigger longer[i]] 0 <= i < longer.len() implies starts_name(
            longer[i],
        ) || is_digit(longer[i]) by {
            if i < last {
                assert(starts_name(text[i]) || is_digit(text[i]));
            }
        }
    }
    if text.len() > 0 && is_name(longer) {
        assert(longer[0] == text[0]);
        assert forall|i: int| #![trigger text[i]] 0 <= i < text.len() implies starts_name(text[i])
            || is_digit(text[i]) by {
            assert(longer[i] == text[i]);
        }
    }
}

/// Digits are read from the left: each one appended makes ten times the number before.
pub proof fn law_digits_are_read_from_the_left(text: Seq<char>, c: char)
    requires
        is_digit(c),
    ensures
        number(text.push(c)) == 10 * number(text) + (c as int - 0x30),
        is_number(text) ==> is_number(text.push(c)),
        !is_number(Seq::empty()),
{
    assert(text.push(c).drop_last() =~= text);
    if is_number(text) {
        assert forall|i: int| 0 <= i < text.push(c).len() implies is_digit(
            #[trigger] text.push(c)[i],
        ) by {
            if i < text.len() {
                assert(is_digit(text[i]));
            }
        }
    }
}

proof fn lemma_slots_fall_apart(slots: Seq<Seq<char>>)
    requires
        slots.len() > 0,
        forall|i: int| 0 <= i < slots.len() ==> !(#[trigger] slots[i]).contains(','),
    ensures
        pieces(joined(slots), ',') == slots,
    decreases slots.len(),
{
    reveal_strlit(",");
    assert(","@ =~= seq![',']);
    let last = slots.len() - 1;
    assert(!slots[last].contains(','));
    if slots.len() == 1 {
        law_texts_fall_apart_at_marks(Seq::empty(), ',', slots[0]);
        assert(seq![slots[0]] =~= slots);
    } else {
        let fewer = slots.drop_last();
        assert forall|i: int| 0 <= i < fewer.len() implies !(#[trigger] fewer[i]).contains(',') by {
            assert(fewer[i] == slots[i]);
        }
        lemma_slots_fall_apart(fewer);
        law_texts_fall_apart_at_marks(joined(fewer), ',', slots.last());
        assert(fewer + seq![slots.last()] =~= slots);
    }
}

/// The parameters of a callback are those of an event exactly where there are five slots,
/// and each of them is a 32-bit number.
pub proof fn law_events_have_five_slots(slots: Seq<Seq<char>>)
    requires
        slots.len() > 0,
        forall|i: int| 0 <= i < slots.len() ==> !(#[trigger] slots[i]).contains(','),
        stays_whole(joined(slots), Edge::Bracket),
    ensures
        takes_event(seq!['['] + joined(slots) + seq![']']) <==> slots.len() == 5 && forall|i: int|
            0 <= i < slots.len() ==> trimmed(
                trimmed(#[trigger] slots[i], Edge::Blank),
                Edge::Quote,
            ) == "i32"@,
{
    law_trimming_keeps_the_middle(seq!['['], joined(slots), seq![']'], Edge::Bracket);
    lemma_slots_fall_apart(slots);
}

} // verus!
