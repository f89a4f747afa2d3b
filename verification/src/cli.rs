//! What is read from arguments and files of the command line.

use vstd::prelude::*;
use vstd::string::*;
use crate::scenario::StepCircuit;

verus! {

/// The characters of a text.
pub fn chars_of(text: &str) -> (r: Vec<char>)
    ensures
        r@ == text@,
{
    let mut out: Vec<char> = Vec::new();
    for c in it: text.chars()
        invariant
            out@ == it.seq().take(it.index() as int),
            it.seq() == text@,
    {
        out.push(c);
    }
    out
}

/// Whether two texts are the same.
pub fn same_text(a: &str, b: &str) -> (r: bool)
    ensures
        r == (a@ == b@),
{
    let left = chars_of(a);
    let right = chars_of(b);
    if left.len() != right.len() {
        return false;
    }
    let mut i: usize = 0;
    while i < left.len()
        invariant
            i <= left@.len() == right@.len(),
            left@ == a@,
            right@ == b@,
            forall|j: int| 0 <= j < i ==> left@[j] == right@[j],
        decreases left@.len() - i,
    {
        if left[i] != right[i] {
            return false;
        }
        i += 1;
    }
    assert(left@ =~= right@);
    true
}

/// What the program is asked to do.
#[derive(Clone, Copy, Debug, PartialEq, Eq, Structural)]
pub enum Mode {
    /// Prove a single step for another process.
    Step,
    /// Measure a spend with every slot in use.
    GridCell,
    /// Check the mint's constraints.
    Execute,
    /// Prove the whole chain.
    Prove,
}

/// What the program is asked to do, from the flags that are present. A single step goes
/// before everything else and needs its two paths; the measurement goes next; else exactly
/// one of the two demonstrations is to be chosen.
pub fn select_mode(
    internal_kind: bool,
    internal_witness: bool,
    internal_output: bool,
    grid_cell: bool,
    execute: bool,
    prove: bool,
) -> (r: Result<Mode, &'static str>)
    ensures
        match r {
            Ok(Mode::Step) => internal_kind && internal_witness && internal_output,
            Ok(Mode::GridCell) => !internal_kind && grid_cell,
            Ok(Mode::Execute) => !internal_kind && !grid_cell && execute && !prove,
            Ok(Mode::Prove) => !internal_kind && !grid_cell && !execute && prove,
            Err(message) => message@ == (if internal_kind {
                if !internal_witness {
                    "--internal-witness required with --internal-kind"@
                } else {
                    "--internal-output required with --internal-kind"@
                }
            } else {
                "Error: specify exactly one of --execute, --prove"@
            }),
        },
        r is Ok == (if internal_kind {
            internal_witness && internal_output
        } else {
            grid_cell || execute != prove
        }),
{
    if internal_kind {
        if !internal_witness {
            Err("--internal-witness required with --internal-kind")
        } else if !internal_output {
            Err("--internal-output required with --internal-kind")
        } else {
            Ok(Mode::Step)
        }
    } else if grid_cell {
        Ok(Mode::GridCell)
    } else if execute == prove {
        Err("Error: specify exactly one of --execute, --prove")
    } else if execute {
        Ok(Mode::Execute)
    } else {
        Ok(Mode::Prove)
    }
}

/// The kinds of steps that are proved in a process of their own.
#[derive(Clone, Copy, Debug, PartialEq, Eq, Structural)]
pub enum StepKind {
    Genesis,
    SpendNonGenesis,
    Receipt,
    WrapSpend,
    WrapReceipt,
}

/// The kind of a circuit.
pub open spec fn kind_of(step: StepCircuit) -> StepKind {
    match step {
        StepCircuit::Mint(_) => StepKind::Genesis,
        StepCircuit::Spend(_) => StepKind::SpendNonGenesis,
        StepCircuit::Receipt(_) => StepKind::Receipt,
        StepCircuit::WrapSpend(_) => StepKind::WrapSpend,
        StepCircuit::WrapReceipt(_) => StepKind::WrapReceipt,
    }
}

impl StepKind {
    /// The kind of a circuit.
    pub fn of(step: &StepCircuit) -> (r: StepKind)
        ensures
            r == kind_of(*step),
    {
        match step {
            StepCircuit::Mint(_) => StepKind::Genesis,
            StepCircuit::Spend(_) => StepKind::SpendNonGenesis,
            StepCircuit::Receipt(_) => StepKind::Receipt,
            StepCircuit::WrapSpend(_) => StepKind::WrapSpend,
            StepCircuit::WrapReceipt(_) => StepKind::WrapReceipt,
        }
    }

    /// The kind's name on the command line.
    pub open spec fn text(self) -> Seq<char> {
        match self {
            StepKind::Genesis => "genesis"@,
            StepKind::SpendNonGenesis => "spend_non_genesis"@,
            StepKind::Receipt => "receipt"@,
            StepKind::WrapSpend => "wrap6"@,
            StepKind::WrapReceipt => "wrap5"@,
        }
    }

    /// The kind's name on the command line.
    pub fn name(self) -> (r: &'static str)
        ensures
            r@ == self.text(),
    {
        match self {
            StepKind::Genesis => "genesis",
            StepKind::SpendNonGenesis => "spend_non_genesis",
            StepKind::Receipt => "receipt",
            StepKind::WrapSpend => "wrap6",
            StepKind::WrapReceipt => "wrap5",
        }
    }

    /// The kind with a name.
    pub fn parse(name: &str) -> (r: Option<StepKind>)
        ensures
            r is Some ==> r->0.text() == name@,
            r is None ==> forall|kind: StepKind| #[trigger] kind.text() != name@,
    {
        if same_text(name, "genesis") {
            Some(StepKind::Genesis)
        } else if same_text(name, "spend_non_genesis") {
            Some(StepKind::SpendNonGenesis)
        } else if same_text(name, "receipt") {
            Some(StepKind::Receipt)
        } else if same_text(name, "wrap6") {
            Some(StepKind::WrapSpend)
        } else if same_text(name, "wrap5") {
            Some(StepKind::WrapReceipt)
        } else {
            None
        }
    }
}

/// Different kinds have different names, so a kind is read back from its name.
pub proof fn kinds_have_different_names(a: StepKind, b: StepKind)
    requires
        a.text() == b.text(),
    ensures
        a == b,
{
    reveal_strlit("genesis");
    reveal_strlit("spend_non_genesis");
    reveal_strlit("receipt");
    reveal_strlit("wrap6");
    reveal_strlit("wrap5");
    assert("genesis"@.len() == 7 && "genesis"@[0] == 'g');
    assert("spend_non_genesis"@.len() == 17);
    assert("receipt"@.len() == 7 && "receipt"@[0] == 'r');
    assert("wrap6"@.len() == 5 && "wrap6"@[4] == '6');
    assert("wrap5"@.len() == 5 && "wrap5"@[4] == '5');
}

/// A character is white space, in the sense of Unicode.
pub open spec fn is_space(c: char) -> bool {
    let u = c as int;
    ||| 0x09 <= u <= 0x0d
    ||| u == 0x20
    ||| u == 0x85
    ||| u == 0xa0
    ||| u == 0x1680
    ||| 0x2000 <= u <= 0x200a
    ||| u == 0x2028
    ||| u == 0x2029
    ||| u == 0x202f
    ||| u == 0x205f
    ||| u == 0x3000
}

fn is_white(c: char) -> (r: bool)
    ensures
        r == is_space(c),
{
    let u: u32 = c as u32;
    (0x09 <= u && u <= 0x0d) || u == 0x20 || u == 0x85 || u == 0xa0 || u == 0x1680 || (0x2000 <= u
        && u <= 0x200a) || u == 0x2028 || u == 0x2029 || u == 0x202f || u == 0x205f || u == 0x3000
}

/// The first place from `i` on whose character is white space, if `space`, or none, else.
pub open spec fn next_place(text: Seq<char>, i: int, space: bool) -> int
    decreases text.len() - i,
{
    if i < 0 || i >= text.len() || is_space(text[i]) == space {
        i
    } else {
        next_place(text, i + 1, space)
    }
}

/// The first word of a text, which is empty where there is none.
pub open spec fn first_word(text: Seq<char>) -> Seq<char> {
    let start = next_place(text, 0, false);
    text.subrange(start, next_place(text, start, true))
}

/// The number that decimal digits write; nothing where one is no digit or none is there.
pub open spec fn digits_value(text: Seq<char>) -> Option<nat>
    decreases text.len(),
{
    if text.len() == 0 {
        None
    } else if !('0' <= text.last() <= '9') {
        None
    } else {
        let d = (text.last() as int - 48) as nat;
        if text.len() == 1 {
            Some(d)
        } else {
            match digits_value(text.drop_last()) {
                Some(n) => Some(10 * n + d),
                None => None,
            }
        }
    }
}

/// The 64-bit number that a word writes in decimal, with a plus sign in front of it or not.
pub open spec fn word_value(word: Seq<char>) -> Option<u64> {
    let digits = if word.len() > 0 && word[0] == '+' {
        word.drop_first()
    } else {
        word
    };
    match digits_value(digits) {
        Some(n) => if n <= u64::MAX {
            Some(n as u64)
        } else {
            None
        },
        None => None,
    }
}

/// A text begins with another one.
pub open spec fn begins_with(text: Seq<char>, prefix: Seq<char>) -> bool {
    text.len() >= prefix.len() && text.take(prefix.len() as int) == prefix
}

/// The peak that a line of a status file reports.
pub open spec fn line_peak(line: Seq<char>) -> Option<u64> {
    let prefix = "VmHWM:"@;
    if begins_with(line, prefix) {
        word_value(first_word(line.skip(prefix.len() as int)))
    } else {
        None
    }
}

/// The larger of two readings, where there are any.
pub open spec fn larger(a: Option<u64>, b: Option<u64>) -> Option<u64> {
    match (a, b) {
        (Some(x), Some(y)) => Some(if x < y {
            y
        } else {
            x
        }),
        (Some(x), None) => Some(x),
        (None, _) => b,
    }
}

/// The end of the line that begins at `i`.
pub open spec fn line_end(text: Seq<char>, i: int) -> int
    decreases text.len() - i,
{
    if i < 0 || i >= text.len() || text[i] == '\n' {
        i
    } else {
        line_end(text, i + 1)
    }
}

/// A line ends within the text.
proof fn lemma_line_end(text: Seq<char>, i: int)
    requires
        0 <= i <= text.len(),
    ensures
        i <= line_end(text, i) <= text.len(),
        forall|j: int| i <= j < line_end(text, i) ==> text[j] != '\n',
    decreases text.len() - i,
{
    if i < text.len() && text[i] != '\n' {
        lemma_line_end(text, i + 1);
    }
}

/// The largest of an earlier reading and those of the lines from `i` on.
pub open spec fn peak_from(text: Seq<char>, i: int, before: Option<u64>) -> Option<u64>
    decreases text.len() + 1 - i,
    via peak_from_terminates
{
    if i < 0 || i >= text.len() {
        before
    } else {
        peak_from(
            text,
            line_end(text, i) + 1,
            larger(before, line_peak(text.subrange(i, line_end(text, i)))),
        )
    }
}

#[via_fn]
proof fn peak_from_terminates(text: Seq<char>, i: int, before: Option<u64>) {
    if 0 <= i < text.len() {
        lemma_line_end(text, i);
    }
}

/// The first place from `i` on with white space, or without.
fn find_place(text: &[char], from: usize, space: bool) -> (r: usize)
    requires
        from <= text@.len(),
    ensures
        r == next_place(text@, from as int, space),
        from <= r <= text@.len(),
{
    let mut i: usize = from;
    while i < text.len() && is_white(text[i]) != space
        invariant
            from <= i <= text@.len(),
            next_place(text@, from as int, space) == next_place(text@, i as int, space),
        decreases text@.len() - i,
    {
        i += 1;
    }
    i
}

/// A text without its last character writes no number, or not a smaller one.
proof fn lemma_digits_grow(text: Seq<char>, n: int)
    requires
        0 < n <= text.len(),
    ensures
        digits_value(text.take(n)) is None ==> digits_value(text) is None,
        digits_value(text.take(n)) is Some && digits_value(text) is Some
            ==> digits_value(text.take(n))->0 <= digits_value(text)->0,
    decreases text.len() - n,
{
    if n == text.len() {
        assert(text.take(n) =~= text);
    } else {
        lemma_digits_grow(text, n + 1);
        assert(text.take(n + 1).drop_last() =~= text.take(n));
    }
}

/// The 64-bit number that a word writes.
fn parse_word(word: &[char]) -> (r: Option<u64>)
    ensures
        r == word_value(word@),
{
    let start: usize = if word.len() > 0 && word[0] == '+' {
        1
    } else {
        0
    };
    let ghost digits = word@.subrange(start as int, word@.len() as int);
    proof {
        if start == 1 {
            assert(digits =~= word@.drop_first());
        } else {
            assert(digits =~= word@);
        }
    }
    if start == word.len() {
        return None;
    }
    let mut value: u64 = 0;
    let mut i: usize = start;
    while i < word.len()
        invariant
            start <= i <= word@.len(),
            start < word@.len(),
            digits == word@.subrange(start as int, word@.len() as int),
            word_value(word@) == (match digits_value(digits) {
                Some(n) => if n <= u64::MAX {
                    Some(n as u64)
                } else {
                    None
                },
                None => None,
            }),
            i == start ==> value == 0,
            i > start ==> digits_value(digits.take(i - start)) == Some(value as nat),
        decreases word@.len() - i,
    {
        let c = word[i];
        let ghost next = digits.take(i + 1 - start);
        proof {
            assert(next.last() == c);
            assert(next.drop_last() =~= digits.take(i - start));
            lemma_digits_grow(digits, i + 1 - start);
        }
        if c < '0' || c > '9' {
            return None;
        }
        let d: u64 = (c as u32 - 48) as u64;
        if value > (u64::MAX - d) / 10 {
            return None;
        }
        value = value * 10 + d;
        i += 1;
    }
    assert(digits.take(i - start) =~= digits);
    Some(value)
}

/// Whether a text begins with another one at a place.
fn begins_at(text: &[char], from: usize, prefix: &[char]) -> (r: bool)
    requires
        from <= text@.len(),
    ensures
        r == begins_with(text@.skip(from as int), prefix@),
{
    if text.len() - from < prefix.len() {
        return false;
    }
    let ghost rest = text@.skip(from as int);
    let mut i: usize = 0;
    while i < prefix.len()
        invariant
            i <= prefix@.len(),
            from + prefix@.len() <= text@.len() == text.len(),
            rest == text@.skip(from as int),
            forall|j: int| 0 <= j < i ==> rest[j] == prefix@[j],
        decreases prefix@.len() - i,
    {
        if text[from + i] != prefix[i] {
            assert(rest.take(prefix@.len() as int)[i as int] != prefix@[i as int]);
            return false;
        }
        i += 1;
    }
    assert(rest.take(prefix@.len() as int) =~= prefix@);
    true
}

/// The peak that a line of a status file reports.
fn read_line(line: &[char]) -> (r: Option<u64>)
    ensures
        r == line_peak(line@),
{
    let prefix = chars_of("VmHWM:");
    if !begins_at(line, 0, prefix.as_slice()) {
        assert(line@.skip(0) =~= line@);
        return None;
    }
    assert(line@.skip(0) =~= line@);
    let rest = vstd::slice::slice_subrange(line, prefix.len(), line.len());
    assert(rest@ =~= line@.skip(prefix@.len() as int));
    let start = find_place(rest, 0, false);
    let end = find_place(rest, start, true);
    parse_word(vstd::slice::slice_subrange(rest, start, end))
}

/// The peak of resident memory in kilobytes, from a process's status file as Linux writes
/// it and an earlier reading. A text without a reading leaves the earlier one.
pub fn peak_memory(status: &str, before: Option<u64>) -> (r: Option<u64>)
    ensures
        r == peak_from(status@, 0, before),
{
    let text = chars_of(status);
    let mut peak: Option<u64> = before;
    let mut i: usize = 0;
    while i < text.len()
        invariant
            text@ == status@,
            text@.len() == text.len(),
            peak_from(status@, 0, before) == peak_from(status@, i as int, peak),
            i <= text@.len() || peak_from(status@, 0, before) == peak,
        decreases text@.len() - i,
    {
        let mut end: usize = i;
        while end < text.len() && text[end] != '\n'
            invariant
                text@ == status@,
                i <= end <= text@.len(),
                line_end(status@, i as int) == line_end(status@, end as int),
            decreases text@.len() - end,
        {
            end += 1;
        }
        let line = vstd::slice::slice_subrange(text.as_slice(), i, end);
        let reading = read_line(line);
        let ghost earlier = peak;
        peak = match (peak, reading) {
            (Some(x), Some(y)) => Some(if x < y {
                y
            } else {
                x
            }),
            (Some(x), None) => Some(x),
            (None, reading) => reading,
        };
        assert(peak == larger(earlier, line_peak(status@.subrange(i as int, end as int))));
        if end == text.len() {
            assert(peak_from(status@, end + 1, peak) == peak);
            return peak;
        }
        i = end + 1;
    }
    peak
}

/// A hexadecimal digit in lower case.
pub open spec fn hex_digit(d: nat) -> char {
    if d < 10 {
        (48 + d) as char
    } else {
        (87 + d) as char
    }
}

/// Bytes in hexadecimal notation, two digits each and the higher one first.
pub open spec fn hex_text(bytes: Seq<u8>) -> Seq<char> {
    Seq::new(
        2 * bytes.len(),
        |i: int|
            if i % 2 == 0 {
                hex_digit((bytes[i / 2] / 16) as nat)
            } else {
                hex_digit((bytes[i / 2] % 16) as nat)
            },
    )
}

/// The text that bytes write in UTF-8, with replacement characters where they do not.
pub uninterp spec fn utf8_lossy(bytes: Seq<u8>) -> Seq<char>;

/// `encode` of `hex`: each byte as two hexadecimal digits in lower case, the higher one first.
#[verifier::external_body]
fn hex_encode(bytes: &[u8]) -> (r: String)
    ensures
        r@ == hex_text(bytes@),
{
    hex::encode(bytes)
}

/// `String::from_utf8_lossy` of std: the text depends on the bytes alone.
#[verifier::external_body]
fn lossy_text(bytes: &[u8]) -> (r: String)
    ensures
        r@ == utf8_lossy(bytes@),
{
    String::from_utf8_lossy(bytes).into_owned()
}

/// How many characters are left of a text without the white space at its end.
pub open spec fn trimmed_end(text: Seq<char>) -> int
    decreases text.len(),
{
    if text.len() == 0 || !is_space(text.last()) {
        text.len() as int
    } else {
        trimmed_end(text.drop_last())
    }
}

/// A text without white space at its ends.
pub open spec fn trimmed(text: Seq<char>) -> Seq<char> {
    let start = next_place(text, 0, false);
    if start >= text.len() {
        Seq::empty()
    } else {
        text.subrange(start, trimmed_end(text))
    }
}

/// A text without white space at its ends.
pub fn trim(text: &str) -> (r: String)
    ensures
        r@ == trimmed(text@),
{
    let chars = chars_of(text);
    let start = find_place(chars.as_slice(), 0, false);
    if start >= chars.len() {
        let r = String::new();
        assert(r@ =~= Seq::<char>::empty());
        return r;
    }
    proof {
        lemma_place_has_kind(text@, 0, false);
    }
    let mut end: usize = chars.len();
    assert(text@.take(end as int) =~= text@);
    while is_white(chars[end - 1])
        invariant
            chars@ == text@,
            start < end <= chars@.len(),
            !is_space(chars@[start as int]),
            trimmed_end(text@) == trimmed_end(text@.take(end as int)),
        decreases end,
    {
        proof {
            assert(text@.take(end as int).drop_last() =~= text@.take(end - 1));
        }
        end -= 1;
    }
    assert(trimmed_end(text@.take(end as int)) == end);
    String::from_str(text.substring_char(start, end))
}

/// The place that is found within a text is of the kind that was looked for.
proof fn lemma_place_has_kind(text: Seq<char>, i: int, space: bool)
    requires
        0 <= i <= text.len(),
    ensures
        next_place(text, i, space) < text.len() ==> is_space(text[next_place(text, i, space)])
            == space,
    decreases text.len() - i,
{
    if i < text.len() && is_space(text[i]) != space {
        lemma_place_has_kind(text, i + 1, space);
    }
}

/// What is printed of a key-hash file: a raw hash of 32 bytes in hexadecimal notation, other
/// contents as the text that they are.
pub fn vkey_line(raw: &[u8]) -> (r: String)
    ensures
        r@ == (if raw@.len() == 32 {
            "0x"@ + hex_text(raw@)
        } else {
            trimmed(utf8_lossy(raw@))
        }),
{
    if raw.len() == 32 {
        let digits = hex_encode(raw);
        String::from_str("0x").concat(digits.as_str())
    } else {
        let text = lossy_text(raw);
        trim(text.as_str())
    }
}

/// A kind is read back from its name.
pub proof fn kind_is_read_back_from_its_name(
    kind: StepKind,
    name: &'static str,
    r: Option<StepKind>,
)
    requires
        call_ensures(StepKind::name, (kind,), name),
        call_ensures(StepKind::parse, (name,), r),
    ensures
        r == Some(kind),
{
    match r {
        Some(other) => {
            kinds_have_different_names(kind, other);
        },
        None => {
            assert(kind.text() != name@);
        },
    }
}

/// What separates words is one of 25 characters: tab, line feed, vertical tab, form feed,
/// carriage return, space, next line, no-break space, and the spaces and separators of the
/// general punctuation and of the Ogham and ideographic scripts.
pub proof fn spaces_are_these(c: char)
    ensures
        is_space(c) <==> seq![
            0x09int,
            0x0a,
            0x0b,
            0x0c,
            0x0d,
            0x20,
            0x85,
            0xa0,
            0x1680,
            0x2000,
            0x2001,
            0x2002,
            0x2003,
            0x2004,
            0x2005,
            0x2006,
            0x2007,
            0x2008,
            0x2009,
            0x200a,
            0x2028,
            0x2029,
            0x202f,
            0x205f,
            0x3000,
        ].contains(c as int),
{
    let all = seq![
        0x09int,
        0x0a,
        0x0b,
        0x0c,
        0x0d,
        0x20,
        0x85,
        0xa0,
        0x1680,
        0x2000,
        0x2001,
        0x2002,
        0x2003,
        0x2004,
        0x2005,
        0x2006,
        0x2007,
        0x2008,
        0x2009,
        0x200a,
        0x2028,
        0x2029,
        0x202f,
        0x205f,
        0x3000,
    ];
    let u = c as int;
    if 0x09 <= u <= 0x0d {
        assert(all[u - 0x09] == u);
    } else if u == 0x20 {
        assert(all[5] == u);
    } else if u == 0x85 {
        assert(all[6] == u);
    } else if u == 0xa0 {
        assert(all[7] == u);
    } else if u == 0x1680 {
        assert(all[8] == u);
    } else if 0x2000 <= u <= 0x200a {
        assert(all[9 + u - 0x2000] == u);
    } else if u == 0x2028 {
        assert(all[20] == u);
    } else if u == 0x2029 {
        assert(all[21] == u);
    } else if u == 0x202f {
        assert(all[22] == u);
    } else if u == 0x205f {
        assert(all[23] == u);
    } else if u == 0x3000 {
        assert(all[24] == u);
    }
}

/// Trimming takes white space from the two ends, all of it and nothing else: what is left is a
/// part of the text that neither begins nor ends with white space, and before it and behind it
/// there is nothing else.
pub proof fn trimming_takes_white_space_from_the_ends(text: &str, r: String)
    requires
        call_ensures(trim, (text,), r),
    ensures
        r@.len() > 0 ==> !is_space(r@[0]) && !is_space(r@.last()),
        exists|from: int, to: int|
            {
                &&& 0 <= from <= to <= text@.len()
                &&& r@ == #[trigger] text@.subrange(from, to)
                &&& forall|i: int| 0 <= i < from ==> is_space(#[trigger] text@[i])
                &&& forall|i: int| to <= i < text@.len() ==> is_space(#[trigger] text@[i])
            },
{
    let t = text@;
    let start = next_place(t, 0, false);
    lemma_place_has_kind(t, 0, false);
    lemma_place_is_first(t, 0, false);
    lemma_trimmed_end(t);
    let end = trimmed_end(t);
    if start >= t.len() {
        assert(t.subrange(t.len() as int, t.len() as int) =~= r@);
    } else {
        if end <= start {
            assert(is_space(t[start]));
        }
        assert(r@ == t.subrange(start, end));
        assert(r@[0] == t[start]);
        assert(r@.last() == t[end - 1]);
    }
}

/// All characters before the place that is found are of the other kind.
proof fn lemma_place_is_first(text: Seq<char>, i: int, space: bool)
    requires
        0 <= i <= text.len(),
    ensures
        i <= next_place(text, i, space) <= text.len(),
        forall|j: int| i <= j < next_place(text, i, space) ==> is_space(#[trigger] text[j]) != space,
    decreases text.len() - i,
{
    if i < text.len() && is_space(text[i]) != space {
        lemma_place_is_first(text, i + 1, space);
    }
}

proof fn lemma_trimmed_end(text: Seq<char>)
    ensures
        0 <= trimmed_end(text) <= text.len(),
        trimmed_end(text) > 0 ==> !is_space(text[trimmed_end(text) - 1]),
        forall|j: int| trimmed_end(text) <= j < text.len() ==> is_space(#[trigger] text[j]),
    decreases text.len(),
{
    if text.len() > 0 && is_space(text.last()) {
        lemma_trimmed_end(text.drop_last());
        assert forall|j: int| trimmed_end(text) <= j < text.len() implies is_space(
            #[trigger] text[j],
        ) by {
            if j < text.len() - 1 {
                assert(text.drop_last()[j] == text[j]);
            }
        }
    }
}

/// The first word of a text has no white space in it, nothing but white space before it, and
/// white space or nothing behind it.
pub proof fn first_word_stands_between_spaces(text: Seq<char>)
    ensures
        exists|from: int, to: int|
            {
                &&& 0 <= from <= to <= text.len()
                &&& first_word(text) == #[trigger] text.subrange(from, to)
                &&& forall|i: int| 0 <= i < from ==> is_space(#[trigger] text[i])
                &&& forall|i: int| from <= i < to ==> !is_space(#[trigger] text[i])
                &&& to < text.len() ==> is_space(text[to])
                &&& from == to ==> to == text.len()
            },
{
    let from = next_place(text, 0, false);
    lemma_place_is_first(text, 0, false);
    lemma_place_has_kind(text, 0, false);
    lemma_place_is_first(text, from, true);
    lemma_place_has_kind(text, from, true);
    let to = next_place(text, from, true);
    assert(first_word(text) == text.subrange(from, to));
}

/// Decimal digits are read from the first to the last: one more digit multiplies by ten and is
/// added; anything else makes the text no number.
pub proof fn one_more_digit_multiplies_by_ten(text: Seq<char>, c: char)
    ensures
        digits_value(Seq::empty()) is None,
        !('0' <= c <= '9') ==> digits_value(text.push(c)) is None,
        '0' <= c <= '9' && text.len() == 0 ==> digits_value(text.push(c)) == Some(
            (c as int - 48) as nat,
        ),
        '0' <= c <= '9' && text.len() > 0 ==> {
            &&& digits_value(text.push(c)) is Some <==> digits_value(text) is Some
            &&& digits_value(text) is Some ==> digits_value(text.push(c))->0 == 10 * digits_value(
                text,
            )->0 + (c as int - 48)
        },
{
    assert(text.push(c).drop_last() =~= text);
    assert(text.push(c).last() == c);
}

/// The peak is never below an earlier reading, and a text without lines leaves that reading.
pub proof fn peak_is_never_below_an_earlier_reading(
    status: &str,
    before: Option<u64>,
    r: Option<u64>,
)
    requires
        call_ensures(peak_memory, (status, before), r),
    ensures
        status@.len() == 0 ==> r == before,
        before is Some ==> r is Some && r->0 >= before->0,
{
    lemma_peak_grows(status@, 0, before);
}

proof fn lemma_peak_grows(text: Seq<char>, i: int, before: Option<u64>)
    requires
        0 <= i,
    ensures
        before is Some ==> peak_from(text, i, before) is Some && peak_from(text, i, before)->0
            >= before->0,
    decreases text.len() + 1 - i,
{
    if i < text.len() {
        lemma_line_end(text, i);
        lemma_peak_grows(
            text,
            line_end(text, i) + 1,
            larger(before, line_peak(text.subrange(i, line_end(text, i)))),
        );
    }
}

/// A text is read line by line: reading a line and the text after it is reading the text with
/// the line's reading, or the larger of the two, for an earlier one.
pub proof fn peak_is_read_line_by_line(
    line: &str,
    rest: &str,
    whole: &str,
    before: Option<u64>,
    by_line: Option<u64>,
    by_rest: Option<u64>,
    r: Option<u64>,
)
    requires
        forall|i: int| 0 <= i < line@.len() ==> line@[i] != '\n',
        whole@ == line@ + seq!['\n'] + rest@,
        call_ensures(peak_memory, (line, before), by_line),
        call_ensures(peak_memory, (rest, by_line), by_rest),
        call_ensures(peak_memory, (whole, before), r),
    ensures
        r == by_rest,
{
    let a = line@;
    let w = whole@;
    let n = a.len() as int;
    lemma_line_ends_at(w, 0, n);
    assert(w.subrange(0, n) =~= a);
    assert(w.skip(n + 1) =~= rest@);
    lemma_peak_of_tail(w, n + 1, n + 1, larger(before, line_peak(a)));
    assert(rest@.skip(0) =~= rest@);
    if n > 0 {
        lemma_line_ends_at(a, 0, n);
        assert(a.subrange(0, n) =~= a);
        assert(peak_from(a, n + 1, larger(before, line_peak(a))) == larger(before, line_peak(a)));
    } else {
        reveal_strlit("VmHWM:");
        assert(line_peak(a) is None);
        assert(larger(before, None) == before);
    }
}

/// A line without a line feed ends where the first one comes, or with the text.
proof fn lemma_line_ends_at(text: Seq<char>, i: int, end: int)
    requires
        0 <= i <= end <= text.len(),
        forall|j: int| i <= j < end ==> text[j] != '\n',
        end < text.len() ==> text[end] == '\n',
    ensures
        line_end(text, i) == end,
    decreases end - i,
{
    if i < end {
        lemma_line_ends_at(text, i + 1, end);
    }
}

/// Reading from a place on is reading what begins there.
proof fn lemma_peak_of_tail(text: Seq<char>, from: int, i: int, before: Option<u64>)
    requires
        0 <= from <= text.len(),
        from <= i,
    ensures
        peak_from(text, i, before) == peak_from(text.skip(from), i - from, before),
    decreases text.len() + 1 - i,
{
    let tail = text.skip(from);
    if i < text.len() {
        lemma_line_end(text, i);
        let end = line_end(text, i);
        lemma_line_stops(text, i);
        assert forall|j: int| i - from <= j < end - from implies tail[j] != '\n' by {
            assert(text[j + from] != '\n');
        }
        lemma_line_ends_at(tail, i - from, end - from);
        assert(tail.subrange(i - from, end - from) =~= text.subrange(i, end));
        lemma_peak_of_tail(
            text,
            from,
            end + 1,
            larger(before, line_peak(text.subrange(i, end))),
        );
    }
}

proof fn lemma_line_stops(text: Seq<char>, i: int)
    requires
        0 <= i <= text.len(),
    ensures
        line_end(text, i) < text.len() ==> text[line_end(text, i)] == '\n',
    decreases text.len() - i,
{
    if i < text.len() && text[i] != '\n' {
        lemma_line_stops(text, i + 1);
    }
}

/// A single line gives a reading where it begins with `VmHWM:`: the number that the word behind
/// writes, where it is one and has room in 64 bits. The larger of it and an earlier reading is
/// the peak.
pub proof fn line_gives_the_number_behind_the_label(
    line: &str,
    before: Option<u64>,
    r: Option<u64>,
)
    requires
        line@.len() > 0,
        forall|i: int| 0 <= i < line@.len() ==> line@[i] != '\n',
        call_ensures(peak_memory, (line, before), r),
    ensures
        ({
            let label = seq!['V', 'm', 'H', 'W', 'M', ':'];
            let word = first_word(line@.skip(6));
            let number = digits_value(
                if word.len() > 0 && word[0] == '+' {
                    word.drop_first()
                } else {
                    word
                },
            );
            let labelled = line@.len() >= 6 && line@.take(6) == label;
            &&& labelled && number is Some && number->0 <= u64::MAX ==> r is Some && (r->0
                == number->0 || before is Some && r->0 == before->0) && r->0 >= number->0 && (
            before is Some ==> r->0 >= before->0)
            &&& !(labelled && number is Some && number->0 <= u64::MAX) ==> r == before
        }),
{
    reveal_strlit("VmHWM:");
    let label = seq!['V', 'm', 'H', 'W', 'M', ':'];
    assert("VmHWM:"@ =~= label);
    let n = line@.len() as int;
    lemma_line_ends_at(line@, 0, n);
    assert(line@.subrange(0, n) =~= line@);
    assert(peak_from(line@, n + 1, larger(before, line_peak(line@))) == larger(
        before,
        line_peak(line@),
    ));
}

/// A raw hash of 32 bytes is printed as `0x` and 64 digits in lower case, the higher digit of
/// each byte first; other contents are printed as their text, trimmed.
pub proof fn hash_is_printed_in_lower_case_digits(raw: &[u8], r: String, i: int)
    requires
        call_ensures(vkey_line, (raw,), r),
    ensures
        raw@.len() == 32 ==> r@.len() == 66 && r@[0] == '0' && r@[1] == 'x',
        raw@.len() == 32 && 0 <= i < 32 ==> {
            let high = r@[2 + 2 * i] as int;
            let low = r@[3 + 2 * i] as int;
            let value = |c: int|
                if c >= 97 {
                    c - 87
                } else {
                    c - 48
                };
            &&& (48 <= high <= 57 || 97 <= high <= 102) && (48 <= low <= 57 || 97 <= low <= 102)
            &&& 16 * value(high) + value(low) == raw@[i]
        },
        raw@.len() != 32 ==> r@ == trimmed(utf8_lossy(raw@)),
{
    reveal_strlit("0x");
    if raw@.len() == 32 && 0 <= i < 32 {
        let text = hex_text(raw@);
        assert(r@ == "0x"@ + text);
        assert(r@[2 + 2 * i] == text[2 * i]);
        assert(r@[3 + 2 * i] == text[2 * i + 1]);
        assert((2 * i) / 2 == i && (2 * i) % 2 == 0);
        assert((2 * i + 1) / 2 == i && (2 * i + 1) % 2 == 1);
    }
}

/// Each step has a kind, and each kind a name on the command line.
pub proof fn steps_have_kinds_and_kinds_have_names(
    step: &StepCircuit,
    kind: StepKind,
    name: &'static str,
)
    requires
        call_ensures(StepKind::of, (step,), kind),
        call_ensures(StepKind::name, (kind,), name),
    ensures
        *step is Mint ==> kind == StepKind::Genesis && name@ == "genesis"@,
        *step is Spend ==> kind == StepKind::SpendNonGenesis && name@ == "spend_non_genesis"@,
        *step is Receipt ==> kind == StepKind::Receipt && name@ == "receipt"@,
        *step is WrapSpend ==> kind == StepKind::WrapSpend && name@ == "wrap6"@,
        *step is WrapReceipt ==> kind == StepKind::WrapReceipt && name@ == "wrap5"@,
{
}

} // verus!
