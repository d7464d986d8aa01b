//! Parsing of the program file: hexadecimal tokens, `// JOB` control
//! cards, and whole program listings.  Reading the file itself is left to
//! the surrounding binary; everything here works on lines already in
//! memory.

use vstd::prelude::*;

verus! {

use vstd::string::StringSliceAdditionalSpecFns;
use crate::disk::Disk;
use crate::program_info::Program;
use crate::DISK_SIZE;

/// Queue status of a freshly parsed job.
#[derive(Clone, Copy, Debug, PartialEq, Eq, Structural)]
pub enum Status {
    New,
    Running,
}

/// The metadata a `// JOB` control card carries.
#[derive(Clone, Copy, Debug, PartialEq, Eq, Structural)]
pub struct PCB {
    pub id: u32,
    pub instruction_size: u32,
    pub priority: u32,
    pub status: Status,
}

/// ASCII whitespace, as token separators.
pub open spec fn is_space(b: u8) -> bool {
    b == 32 || b == 9 || b == 10 || b == 12 || b == 13
}

/// ASCII hexadecimal digit.
pub open spec fn is_hex_digit(b: u8) -> bool {
    (48 <= b <= 57) || (65 <= b <= 70) || (97 <= b <= 102)
}

/// Numeric value of one hexadecimal digit.
pub open spec fn hex_digit_value(b: u8) -> int {
    if 48 <= b <= 57 {
        b - 48
    } else if 65 <= b <= 70 {
        b - 55
    } else {
        b - 87
    }
}

/// Value of a string of hexadecimal digits, most significant first.
pub open spec fn hex_value(s: Seq<u8>) -> int
    decreases s.len(),
{
    if s.len() == 0 {
        0
    } else {
        hex_value(s.drop_last()) * 16 + hex_digit_value(s.last())
    }
}

/// A non-empty, all-hexadecimal token.
pub open spec fn is_hex_token(s: Seq<u8>) -> bool {
    s.len() > 0 && (forall|i: int| 0 <= i < s.len() ==> is_hex_digit(#[trigger] s[i]))
}

/// A token that reads as a 32-bit value.
pub open spec fn parses_to_u32(s: Seq<u8>) -> bool {
    is_hex_token(s) && hex_value(s) <= u32::MAX
}

/// Helper: the value of a hex string never shrinks as digits are added.
proof fn lemma_hex_prefix_grows(s: Seq<u8>, i: int)
    requires
        0 <= i <= s.len(),
        forall|k: int| 0 <= k < s.len() ==> is_hex_digit(#[trigger] s[k]),
    ensures
        hex_value(s) >= hex_value(s.take(i)),
        hex_value(s) >= 0,
    decreases s.len() - i,
{
    if i < s.len() {
        assert(s.take(i + 1).drop_last() =~= s.take(i));
        assert(s.take(i + 1).last() == s[i]);
        lemma_hex_nonneg(s.take(i));
        lemma_hex_prefix_grows(s, i + 1);
    } else {
        assert(s.take(i) =~= s);
        lemma_hex_nonneg(s);
    }
}

/// Helper: hex strings have nonnegative values.
proof fn lemma_hex_nonneg(s: Seq<u8>)
    requires
        forall|k: int| 0 <= k < s.len() ==> is_hex_digit(#[trigger] s[k]),
    ensures
        hex_value(s) >= 0,
    decreases s.len(),
{
    if s.len() > 0 {
        assert(forall|k: int|
            0 <= k < s.drop_last().len() ==> is_hex_digit(#[trigger] s.drop_last()[k]));
        lemma_hex_nonneg(s.drop_last());
    }
}

/// Parses a hexadecimal token into a 32-bit value; fails on an empty
/// token, a non-hexadecimal byte, or a value over `u32::MAX`.
pub fn parse_hex_u32(digits: &[u8]) -> (r: Option<u32>)
    ensures
        r is Some <==> parses_to_u32(digits@),
        r matches Some(v) ==> v == hex_value(digits@),
{
    let n = digits.len();
    if n == 0 {
        return None;
    }
    let mut acc: u64 = 0;
    let mut i: usize = 0;
    while i < n
        invariant
            n == digits@.len(),
            i <= n,
            forall|k: int| 0 <= k < i ==> is_hex_digit(#[trigger] digits@[k]),
            acc == hex_value(digits@.take(i as int)),
            acc <= u32::MAX,
        decreases n - i,
    {
        let b = digits[i];
        let d: u64 = if 48 <= b && b <= 57 {
            (b - 48) as u64
        } else if 65 <= b && b <= 70 {
            (b - 55) as u64
        } else if 97 <= b && b <= 102 {
            (b - 87) as u64
        } else {
            return None;
        };
        acc = acc * 16 + d;
        proof {
            assert(digits@.take(i + 1).drop_last() =~= digits@.take(i as int));
            assert(digits@.take(i + 1).last() == digits@[i as int]);
        }
        i = i + 1;
        if acc > u32::MAX as u64 {
            proof {
                if forall|k: int| 0 <= k < digits@.len() ==> is_hex_digit(#[trigger] digits@[k]) {
                    lemma_hex_prefix_grows(digits@, i as int);
                }
            }
            return None;
        }
    }
    proof {
        assert(digits@.take(n as int) =~= digits@);
    }
    Some(acc as u32)
}

/// Index of the first non-separator byte at or after `i`.
pub open spec fn token_start(s: Seq<u8>, i: int) -> int
    decreases s.len() - i when 0 <= i <= s.len()
{
    if i >= s.len() {
        i
    } else if !is_space(s[i]) {
        i
    } else {
        token_start(s, i + 1)
    }
}

/// Index just past the token beginning at `i`.
pub open spec fn token_end(s: Seq<u8>, i: int) -> int
    decreases s.len() - i when 0 <= i <= s.len()
{
    if i >= s.len() {
        i
    } else if is_space(s[i]) {
        i
    } else {
        token_end(s, i + 1)
    }
}

proof fn lemma_token_start_bounds(s: Seq<u8>, i: int)
    requires
        0 <= i <= s.len(),
    ensures
        i <= token_start(s, i) <= s.len(),
        token_start(s, i) < s.len() ==> !is_space(s[token_start(s, i)]),
    decreases s.len() - i,
{
    if i < s.len() && is_space(s[i]) {
        lemma_token_start_bounds(s, i + 1);
    }
}

proof fn lemma_token_end_bounds(s: Seq<u8>, i: int)
    requires
        0 <= i <= s.len(),
    ensures
        i <= token_end(s, i) <= s.len(),
        i < s.len() && !is_space(s[i]) ==> token_end(s, i) > i,
    decreases s.len() - i,
{
    if i < s.len() && !is_space(s[i]) {
        lemma_token_end_bounds(s, i + 1);
    }
}

/// The whitespace-separated tokens of `s` from position `i` on.
pub open spec fn spec_tokens_from(s: Seq<u8>, i: int) -> Seq<Seq<u8>>
    decreases s.len() - i when 0 <= i <= s.len() via spec_tokens_from_dec
{
    let ts = token_start(s, i);
    if ts >= s.len() {
        Seq::empty()
    } else {
        seq![s.subrange(ts, token_end(s, ts))] + spec_tokens_from(s, token_end(s, ts))
    }
}

#[via_fn]
proof fn spec_tokens_from_dec(s: Seq<u8>, i: int) {
    if 0 <= i <= s.len() {
        lemma_token_start_bounds(s, i);
        let ts = token_start(s, i);
        if ts < s.len() {
            lemma_token_end_bounds(s, ts);
        }
    }
}

/// The whitespace-separated tokens of `s`.
pub open spec fn spec_tokens(s: Seq<u8>) -> Seq<Seq<u8>> {
    spec_tokens_from(s, 0)
}

/// Finds the next token at or after `from`: returns its start and end.
/// When no token remains, start and end both point at the end of input.
fn next_token(bytes: &[u8], from: usize) -> (r: (usize, usize))
    requires
        from <= bytes@.len(),
    ensures
        r.0 == token_start(bytes@, from as int),
        r.1 == token_end(bytes@, r.0 as int),
        from <= r.0 <= r.1 <= bytes@.len(),
{
    let n = bytes.len();
    let mut i = from;
    while i < n && (bytes[i] == 32 || bytes[i] == 9 || bytes[i] == 10 || bytes[i] == 12
        || bytes[i] == 13)
        invariant
            from <= i <= n,
            n == bytes@.len(),
            token_start(bytes@, from as int) == token_start(bytes@, i as int),
        decreases n - i,
    {
        i = i + 1;
    }
    let start = i;
    let mut j = start;
    while j < n && !(bytes[j] == 32 || bytes[j] == 9 || bytes[j] == 10 || bytes[j] == 12
        || bytes[j] == 13)
        invariant
            start <= j <= n,
            n == bytes@.len(),
            token_end(bytes@, start as int) == token_end(bytes@, j as int),
        decreases n - j,
    {
        j = j + 1;
    }
    (start, j)
}

/// Copies the bytes in `[start, end)` into a fresh vector.
fn copy_byte_range(bytes: &[u8], start: usize, end: usize) -> (r: Vec<u8>)
    requires
        start <= end <= bytes@.len(),
    ensures
        r@ == bytes@.subrange(start as int, end as int),
{
    let mut r: Vec<u8> = Vec::new();
    let mut i = start;
    while i < end
        invariant
            start <= i <= end <= bytes@.len(),
            r@ == bytes@.subrange(start as int, i as int),
        decreases end - i,
    {
        r.push(bytes[i]);
        i = i + 1;
        proof {
            assert(r@ =~= bytes@.subrange(start as int, i as int));
        }
    }
    r
}

/// Whether the first three tokens of `bytes` from position `from` on are
/// 32-bit hexadecimal values.
pub open spec fn three_hex_from(bytes: Seq<u8>, from: int) -> bool {
    let toks = spec_tokens_from(bytes, from);
    &&& toks.len() >= 3
    &&& parses_to_u32(toks[0])
    &&& parses_to_u32(toks[1])
    &&& parses_to_u32(toks[2])
}

/// Reads the first three hexadecimal tokens from `bytes`, starting at
/// `from`; any further tokens are ignored.
fn parse_three_hex(bytes: &[u8], from: usize) -> (r: Option<(u32, u32, u32)>)
    requires
        from <= bytes@.len(),
    ensures
        r is Some <==> three_hex_from(bytes@, from as int),
        r matches Some(v) ==> {
            let toks = spec_tokens_from(bytes@, from as int);
            v.0 == hex_value(toks[0]) && v.1 == hex_value(toks[1]) && v.2 == hex_value(toks[2])
        },
{
    let ghost toks = spec_tokens_from(bytes@, from as int);
    let (s0, e0) = next_token(bytes, from);
    if s0 >= bytes.len() {
        return None;
    }
    let t0 = copy_byte_range(bytes, s0, e0);
    let ghost rest1 = spec_tokens_from(bytes@, e0 as int);
    proof {
        assert(toks == seq![bytes@.subrange(s0 as int, e0 as int)] + rest1);
    }
    let (s1, e1) = next_token(bytes, e0);
    if s1 >= bytes.len() {
        proof {
            assert(rest1 =~= Seq::<Seq<u8>>::empty());
            assert(toks.len() < 3);
        }
        return None;
    }
    let t1 = copy_byte_range(bytes, s1, e1);
    let ghost rest2 = spec_tokens_from(bytes@, e1 as int);
    proof {
        assert(rest1 == seq![bytes@.subrange(s1 as int, e1 as int)] + rest2);
    }
    let (s2, e2) = next_token(bytes, e1);
    if s2 >= bytes.len() {
        proof {
            assert(rest2 =~= Seq::<Seq<u8>>::empty());
            assert(toks.len() < 3);
        }
        return None;
    }
    let t2 = copy_byte_range(bytes, s2, e2);
    proof {
        assert(rest2 == seq![bytes@.subrange(s2 as int, e2 as int)] + spec_tokens_from(
            bytes@,
            e2 as int,
        ));
        assert(toks.len() >= 3);
        assert(toks[0] == t0@ && toks[1] == t1@ && toks[2] == t2@);
    }
    let v0 = match parse_hex_u32(t0.as_slice()) {
        Some(v) => v,
        None => {
            return None;
        },
    };
    let v1 = match parse_hex_u32(t1.as_slice()) {
        Some(v) => v,
        None => {
            return None;
        },
    };
    let v2 = match parse_hex_u32(t2.as_slice()) {
        Some(v) => v,
        None => {
            return None;
        },
    };
    Some((v0, v1, v2))
}

/// `s` begins with `prefix`.
pub open spec fn spec_starts_with(s: Seq<u8>, prefix: Seq<u8>) -> bool {
    s.len() >= prefix.len() && s.take(prefix.len() as int) == prefix
}

/// The bytes of `// JOB`.
pub open spec fn job_prefix() -> Seq<u8> {
    seq![47u8, 47u8, 32u8, 74u8, 79u8, 66u8]
}

/// The bytes of `// Data`.
pub open spec fn data_prefix() -> Seq<u8> {
    seq![47u8, 47u8, 32u8, 68u8, 97u8, 116u8, 97u8]
}

/// The bytes of `// END`.
pub open spec fn end_prefix() -> Seq<u8> {
    seq![47u8, 47u8, 32u8, 69u8, 78u8, 68u8]
}

/// Index just past the last non-separator byte.
pub open spec fn rstrip(s: Seq<u8>) -> int
    decreases s.len(),
{
    if s.len() == 0 {
        0
    } else if is_space(s.last()) {
        rstrip(s.drop_last())
    } else {
        s.len() as int
    }
}

proof fn lemma_rstrip_bounds(s: Seq<u8>)
    ensures
        0 <= rstrip(s) <= s.len(),
    decreases s.len(),
{
    if s.len() > 0 && is_space(s.last()) {
        lemma_rstrip_bounds(s.drop_last());
    }
}

/// `s` with leading and trailing separators removed.
pub open spec fn spec_trim(s: Seq<u8>) -> Seq<u8> {
    if token_start(s, 0) <= rstrip(s) {
        s.subrange(token_start(s, 0), rstrip(s))
    } else {
        Seq::empty()
    }
}

/// One parsed program listing: a `// JOB` header, a `// Data` header, and
/// the image words between them and `// END`.
pub struct ParsedProgram {
    pub id: u32,
    pub priority: u32,
    pub instruction_buffer_size: usize,
    pub in_buffer_size: usize,
    pub out_buffer_size: usize,
    pub temp_buffer_size: usize,
    pub data: Seq<u32>,
}

/// Parser state between lines: the header values seen last, the words
/// accumulated since the last `// END`, and the programs completed.
#[verifier::ext_equal]
pub struct LoaderState {
    pub id: u32,
    pub priority: u32,
    pub instruction_buffer_size: usize,
    pub in_buffer_size: usize,
    pub out_buffer_size: usize,
    pub temp_buffer_size: usize,
    pub data: Seq<u32>,
    pub programs: Seq<ParsedProgram>,
}

pub open spec fn initial_loader_state() -> LoaderState {
    LoaderState {
        id: 0,
        priority: 0,
        instruction_buffer_size: 0,
        in_buffer_size: 0,
        out_buffer_size: 0,
        temp_buffer_size: 0,
        data: Seq::empty(),
        programs: Seq::empty(),
    }
}

/// The effect of one line on the parser state: a `// JOB` header sets id,
/// instruction count and priority; a `// Data` header sets the data
/// region sizes; `// END` completes a program; any other line is one
/// image word, written `0x` followed by hexadecimal digits.
pub open spec fn spec_step_line(st: LoaderState, line: Seq<u8>) -> Option<LoaderState> {
    if spec_starts_with(line, job_prefix()) {
        if line.len() >= 7 && three_hex_from(line, 7) {
            let toks = spec_tokens_from(line, 7);
            Some(
                LoaderState {
                    id: hex_value(toks[0]) as u32,
                    instruction_buffer_size: hex_value(toks[1]) as u32 as usize,
                    priority: hex_value(toks[2]) as u32,
                    ..st
                },
            )
        } else {
            None
        }
    } else if spec_starts_with(line, data_prefix()) {
        if line.len() >= 8 && three_hex_from(line, 8) {
            let toks = spec_tokens_from(line, 8);
            Some(
                LoaderState {
                    in_buffer_size: hex_value(toks[0]) as u32 as usize,
                    out_buffer_size: hex_value(toks[1]) as u32 as usize,
                    temp_buffer_size: hex_value(toks[2]) as u32 as usize,
                    ..st
                },
            )
        } else {
            None
        }
    } else if spec_starts_with(line, end_prefix()) {
        Some(
            LoaderState {
                programs: st.programs.push(
                    ParsedProgram {
                        id: st.id,
                        priority: st.priority,
                        instruction_buffer_size: st.instruction_buffer_size,
                        in_buffer_size: st.in_buffer_size,
                        out_buffer_size: st.out_buffer_size,
                        temp_buffer_size: st.temp_buffer_size,
                        data: st.data,
                    },
                ),
                data: Seq::empty(),
                ..st
            },
        )
    } else {
        let word = spec_trim(line);
        if word.len() >= 2 && parses_to_u32(word.skip(2)) {
            Some(LoaderState { data: st.data.push(hex_value(word.skip(2)) as u32), ..st })
        } else {
            None
        }
    }
}

/// Folds the parser over a sequence of lines.
pub open spec fn spec_load_lines(lines: Seq<Seq<u8>>, st: LoaderState) -> Option<LoaderState>
    decreases lines.len(),
{
    if lines.len() == 0 {
        Some(st)
    } else {
        match spec_step_line(st, lines[0]) {
            Some(st1) => spec_load_lines(lines.drop_first(), st1),
            None => None,
        }
    }
}

/// The programs a well-formed program file describes.
pub open spec fn spec_parse_programs(lines: Seq<Seq<u8>>) -> Option<Seq<ParsedProgram>> {
    match spec_load_lines(lines, initial_loader_state()) {
        Some(st) => Some(st.programs),
        None => None,
    }
}

/// The UTF-8 bytes of each line.
pub open spec fn lines_view(lines: Seq<String>) -> Seq<Seq<u8>> {
    lines.map_values(|s: String| vstd::utf8::encode_utf8(s@))
}

/// The parsed form of an assembled program value.
pub open spec fn parsed_of(p: Program) -> ParsedProgram {
    ParsedProgram {
        id: p.id,
        priority: p.priority,
        instruction_buffer_size: p.instruction_buffer_size,
        in_buffer_size: p.in_buffer_size,
        out_buffer_size: p.out_buffer_size,
        temp_buffer_size: p.temp_buffer_size,
        data: p.data@,
    }
}

/// The parsed forms of a vector of programs.
pub open spec fn parsed_view(ps: Seq<Program>) -> Seq<ParsedProgram> {
    ps.map_values(|p: Program| parsed_of(p))
}

/// Helper: folding one more line is one more step.
proof fn lemma_load_lines_snoc(lines: Seq<Seq<u8>>, st: LoaderState)
    requires
        lines.len() > 0,
    ensures
        spec_load_lines(lines, st) == (match spec_load_lines(lines.drop_last(), st) {
            Some(st1) => spec_step_line(st1, lines.last()),
            None => None::<LoaderState>,
        }),
    decreases lines.len(),
{
    if lines.len() == 1 {
        assert(lines.drop_last() =~= Seq::<Seq<u8>>::empty());
        assert(lines.drop_first() =~= Seq::<Seq<u8>>::empty());
    } else {
        assert(lines.drop_last()[0] == lines[0]);
        assert(lines.drop_first().last() == lines.last());
        match spec_step_line(st, lines[0]) {
            Some(st1) => {
                assert(lines.drop_first().drop_last() =~= lines.drop_last().drop_first());
                lemma_load_lines_snoc(lines.drop_first(), st1);
            },
            None => {},
        }
    }
}

/// Helper: once a line fails to parse, the whole file fails.
proof fn lemma_load_lines_none(lines: Seq<Seq<u8>>, st: LoaderState, i: int)
    requires
        0 <= i <= lines.len(),
        spec_load_lines(lines.take(i), st) is None,
    ensures
        spec_load_lines(lines, st) is None,
    decreases lines.len(),
{
    if lines.len() > 0 && i > 0 {
        assert(lines.take(i)[0] == lines[0]);
        match spec_step_line(st, lines[0]) {
            Some(st1) => {
                assert(lines.take(i).drop_first() =~= lines.drop_first().take(i - 1));
                lemma_load_lines_none(lines.drop_first(), st1, i - 1);
            },
            None => {},
        }
    }
}

/// Reads the program file's control cards and data words; the file
/// itself is read elsewhere.
pub struct Loader {}

impl Loader {
    /// Parses the body of a `// JOB` control card: three hexadecimal
    /// values giving the job's id, instruction count and priority.
    /// Returns nothing if a value is missing or not hexadecimal.
    pub fn parse_job(control_card: &str) -> (r: Option<PCB>)
        ensures
            ({
                let toks = spec_tokens(control_card.spec_bytes());
                &&& r is Some <==> three_hex_from(control_card.spec_bytes(), 0)
                &&& r matches Some(pcb) ==> pcb == (PCB {
                    id: hex_value(toks[0]) as u32,
                    instruction_size: hex_value(toks[1]) as u32,
                    priority: hex_value(toks[2]) as u32,
                    status: Status::New,
                })
            }),
    {
        let bytes = control_card.as_bytes();
        match parse_three_hex(bytes, 0) {
            Some((id, instruction_size, priority)) => Some(
                PCB { id, instruction_size, priority, status: Status::New },
            ),
            None => None,
        }
    }
}

/// Exec check for the `// JOB` prefix.
fn is_job_header(bytes: &[u8]) -> (r: bool)
    ensures
        r == spec_starts_with(bytes@, job_prefix()),
{
    let r = bytes.len() >= 6 && bytes[0] == 47 && bytes[1] == 47 && bytes[2] == 32 && bytes[3]
        == 74 && bytes[4] == 79 && bytes[5] == 66;
    proof {
        if r {
            assert(bytes@.take(6) =~= job_prefix());
        } else if bytes@.len() >= 6 && bytes@.take(6) == job_prefix() {
            assert(bytes@[0] == 47 && bytes@[1] == 47 && bytes@[2] == 32 && bytes@[3] == 74
                && bytes@[4] == 79 && bytes@[5] == 66) by {
                assert(forall|k: int| 0 <= k < 6 ==> bytes@[k] == #[trigger] bytes@.take(6)[k]);
            }
        }
    }
    r
}

/// Exec check for the `// Data` prefix.
fn is_data_header(bytes: &[u8]) -> (r: bool)
    ensures
        r == spec_starts_with(bytes@, data_prefix()),
{
    let r = bytes.len() >= 7 && bytes[0] == 47 && bytes[1] == 47 && bytes[2] == 32 && bytes[3]
        == 68 && bytes[4] == 97 && bytes[5] == 116 && bytes[6] == 97;
    proof {
        if r {
            assert(bytes@.take(7) =~= data_prefix());
        } else if bytes@.len() >= 7 && bytes@.take(7) == data_prefix() {
            assert(bytes@[0] == 47 && bytes@[1] == 47 && bytes@[2] == 32 && bytes@[3] == 68
                && bytes@[4] == 97 && bytes@[5] == 116 && bytes@[6] == 97) by {
                assert(forall|k: int| 0 <= k < 7 ==> bytes@[k] == #[trigger] bytes@.take(7)[k]);
            }
        }
    }
    r
}

/// Exec check for the `// END` prefix.
fn is_end_header(bytes: &[u8]) -> (r: bool)
    ensures
        r == spec_starts_with(bytes@, end_prefix()),
{
    let r = bytes.len() >= 6 && bytes[0] == 47 && bytes[1] == 47 && bytes[2] == 32 && bytes[3]
        == 69 && bytes[4] == 78 && bytes[5] == 68;
    proof {
        if r {
            assert(bytes@.take(6) =~= end_prefix());
        } else if bytes@.len() >= 6 && bytes@.take(6) == end_prefix() {
            assert(bytes@[0] == 47 && bytes@[1] == 47 && bytes@[2] == 32 && bytes@[3] == 69
                && bytes@[4] == 78 && bytes@[5] == 68) by {
                assert(forall|k: int| 0 <= k < 6 ==> bytes@[k] == #[trigger] bytes@.take(6)[k]);
            }
        }
    }
    r
}

/// Bounds of the trimmed middle of a line: first non-separator index and
/// the index just past the last non-separator.
fn trim_bounds(bytes: &[u8]) -> (r: (usize, usize))
    ensures
        r.0 == token_start(bytes@, 0),
        r.1 == rstrip(bytes@),
        r.0 <= bytes@.len(),
        r.1 <= bytes@.len(),
{
    let n = bytes.len();
    let mut l: usize = 0;
    while l < n && (bytes[l] == 32 || bytes[l] == 9 || bytes[l] == 10 || bytes[l] == 12
        || bytes[l] == 13)
        invariant
            l <= n,
            n == bytes@.len(),
            token_start(bytes@, 0) == token_start(bytes@, l as int),
        decreases n - l,
    {
        l = l + 1;
    }
    let mut r: usize = n;
    proof {
        assert(bytes@.take(n as int) =~= bytes@);
    }
    while r > 0 && (bytes[r - 1] == 32 || bytes[r - 1] == 9 || bytes[r - 1] == 10 || bytes[r - 1]
        == 12 || bytes[r - 1] == 13)
        invariant
            r <= n,
            n == bytes@.len(),
            rstrip(bytes@) == rstrip(bytes@.take(r as int)),
        decreases r,
    {
        proof {
            assert(bytes@.take(r as int).drop_last() =~= bytes@.take(r - 1));
            assert(bytes@.take(r as int).last() == bytes@[r - 1]);
        }
        r = r - 1;
    }
    proof {
        assert(bytes@.take(n as int) =~= bytes@);
        if r > 0 {
            assert(bytes@.take(r as int).last() == bytes@[r - 1]);
        }
        lemma_token_start_bounds(bytes@, 0);
    }
    (l, r)
}

/// Parses the lines of a program file into whole programs.  Succeeds
/// exactly when every line reads as a `// JOB` header, a `// Data`
/// header, a `// END` terminator, or an `0x`-prefixed hexadecimal word.
#[verifier::rlimit(60)]
pub fn parse_programs(lines: &Vec<String>) -> (r: Result<Vec<Program>, &'static str>)
    ensures
        r is Ok <==> spec_parse_programs(lines_view(lines@)) is Some,
        r matches Ok(programs) ==> Some(parsed_view(programs@)) == spec_parse_programs(
            lines_view(lines@),
        ),
{
    let ghost lv = lines_view(lines@);
    let mut id: u32 = 0;
    let mut priority: u32 = 0;
    let mut instruction_buffer_size: usize = 0;
    let mut in_buffer_size: usize = 0;
    let mut out_buffer_size: usize = 0;
    let mut temp_buffer_size: usize = 0;
    let mut data: Vec<u32> = Vec::new();
    let mut programs: Vec<Program> = Vec::new();
    proof {
        assert(lv.take(0) =~= Seq::<Seq<u8>>::empty());
        assert(parsed_view(programs@) =~= Seq::<ParsedProgram>::empty());
        assert(spec_load_lines(lv.take(0), initial_loader_state()) == Some(LoaderState {
            id,
            priority,
            instruction_buffer_size,
            in_buffer_size,
            out_buffer_size,
            temp_buffer_size,
            data: data@,
            programs: parsed_view(programs@),
        }));
    }
    let mut i: usize = 0;
    while i < lines.len()
        invariant
            i <= lines@.len(),
            lv == lines_view(lines@),
            spec_load_lines(lv.take(i as int), initial_loader_state()) == Some(LoaderState {
                id,
                priority,
                instruction_buffer_size,
                in_buffer_size,
                out_buffer_size,
                temp_buffer_size,
                data: data@,
                programs: parsed_view(programs@),
            }),
        decreases lines@.len() - i,
    {
        let ghost st_cur = LoaderState {
            id,
            priority,
            instruction_buffer_size,
            in_buffer_size,
            out_buffer_size,
            temp_buffer_size,
            data: data@,
            programs: parsed_view(programs@),
        };
        let bytes = lines[i].as_str().as_bytes();
        proof {
            assert(lv[i as int] == vstd::utf8::encode_utf8(lines@[i as int]@));
            assert(bytes@ == lv[i as int]);
        }
        if is_job_header(bytes) {
            if bytes.len() < 7 {
                proof {
                    lemma_fail_at(lv, i as int, st_cur);
                }
                return Err("JOB control card is missing value");
            }
            match parse_three_hex(bytes, 7) {
                Some((a, b, c)) => {
                    id = a;
                    instruction_buffer_size = b as usize;
                    priority = c;
                },
                None => {
                    proof {
                        lemma_fail_at(lv, i as int, st_cur);
                    }
                    return Err("JOB control card is not a hex value");
                },
            }
        } else if is_data_header(bytes) {
            if bytes.len() < 8 {
                proof {
                    lemma_fail_at(lv, i as int, st_cur);
                }
                return Err("Data control card is missing value");
            }
            match parse_three_hex(bytes, 8) {
                Some((a, b, c)) => {
                    in_buffer_size = a as usize;
                    out_buffer_size = b as usize;
                    temp_buffer_size = c as usize;
                },
                None => {
                    proof {
                        lemma_fail_at(lv, i as int, st_cur);
                    }
                    return Err("Data control card is not a hex value");
                },
            }
        } else if is_end_header(bytes) {
            let program_data = data;
            data = Vec::new();
            programs.push(
                Program {
                    id,
                    priority,
                    instruction_buffer_size,
                    in_buffer_size,
                    out_buffer_size,
                    temp_buffer_size,
                    data: program_data,
                },
            );
            proof {
                assert(parsed_view(programs@) =~= st_cur.programs.push(
                    ParsedProgram {
                        id,
                        priority,
                        instruction_buffer_size,
                        in_buffer_size,
                        out_buffer_size,
                        temp_buffer_size,
                        data: st_cur.data,
                    },
                ));
            }
        } else {
            let (l, rr) = trim_bounds(bytes);
            if rr < l || rr - l < 2 {
                proof {
                    assert(spec_trim(bytes@).len() < 2);
                    lemma_fail_at(lv, i as int, st_cur);
                }
                return Err("Failed to parse hex value");
            }
            let word = copy_byte_range(bytes, l + 2, rr);
            proof {
                assert(word@ =~= spec_trim(bytes@).skip(2));
            }
            match parse_hex_u32(word.as_slice()) {
                Some(v) => {
                    data.push(v);
                },
                None => {
                    proof {
                        lemma_fail_at(lv, i as int, st_cur);
                    }
                    return Err("Failed to parse hex value");
                },
            }
        }
        i = i + 1;
        proof {
            lemma_load_lines_snoc(lv.take(i as int), initial_loader_state());
            assert(lv.take(i as int).drop_last() =~= lv.take(i - 1));
            assert(lv.take(i as int).last() == lv[i - 1]);
            assert(spec_load_lines(lv.take(i as int), initial_loader_state()) == Some(
                LoaderState {
                    id,
                    priority,
                    instruction_buffer_size,
                    in_buffer_size,
                    out_buffer_size,
                    temp_buffer_size,
                    data: data@,
                    programs: parsed_view(programs@),
                },
            ));
        }
    }
    proof {
        assert(lv.take(lines@.len() as int) =~= lv);
    }
    Ok(programs)
}

/// Combined image length of a batch of parsed programs.
pub open spec fn sum_data_lens(ps: Seq<ParsedProgram>) -> int
    decreases ps.len(),
{
    if ps.len() == 0 {
        0
    } else {
        sum_data_lens(ps.drop_last()) + ps.last().data.len()
    }
}

/// The declared region sizes account for every word of the image.
pub open spec fn sizes_consistent(p: ParsedProgram) -> bool {
    p.instruction_buffer_size + p.in_buffer_size + p.out_buffer_size + p.temp_buffer_size
        == p.data.len()
}

/// The parsed programs can all be written to this disk: sizes consistent,
/// ids fresh and distinct, and the pool large enough for all the images.
pub open spec fn spec_loadable(d: Disk, ps: Seq<ParsedProgram>) -> bool {
    &&& forall|k: int|
        0 <= k < ps.len() ==> sizes_consistent(#[trigger] ps[k]) && !d.has_info_for(ps[k].id)
    &&& forall|i: int, j: int|
        0 <= i < j < ps.len() ==> (#[trigger] ps[i].id) != (#[trigger] ps[j].id)
    &&& d.current_data_idx + sum_data_lens(ps) <= DISK_SIZE
}

/// The recorded metadata carries the parsed identity and sizes.
pub open spec fn info_matches(info: crate::program_info::ProgramInfo, p: ParsedProgram) -> bool {
    &&& info.id == p.id
    &&& info.priority == p.priority
    &&& info.instruction_buffer_size == p.instruction_buffer_size
    &&& info.in_buffer_size == p.in_buffer_size
    &&& info.out_buffer_size == p.out_buffer_size
    &&& info.temp_buffer_size == p.temp_buffer_size
}

/// Helper: image lengths are nonnegative, so prefixes never outweigh the
/// whole batch.
proof fn lemma_sum_lens_prefix(ps: Seq<ParsedProgram>, j: int)
    requires
        0 <= j <= ps.len(),
    ensures
        sum_data_lens(ps.take(j)) <= sum_data_lens(ps),
        sum_data_lens(ps.take(j)) >= 0,
    decreases ps.len() - j,
{
    if j == ps.len() {
        assert(ps.take(j) =~= ps);
        lemma_sum_lens_nonneg(ps);
    } else {
        assert(ps.take(j + 1).drop_last() =~= ps.take(j));
        lemma_sum_lens_prefix(ps, j + 1);
        lemma_sum_lens_nonneg(ps.take(j));
    }
}

proof fn lemma_sum_lens_nonneg(ps: Seq<ParsedProgram>)
    ensures
        sum_data_lens(ps) >= 0,
    decreases ps.len(),
{
    if ps.len() > 0 {
        lemma_sum_lens_nonneg(ps.drop_last());
    }
}

/// Parses a program file and stages every program on the disk, in file
/// order.  Succeeds exactly when the file parses and the whole batch is
/// loadable: region sizes that match each image, ids that are fresh and
/// distinct, and enough room in the pool.  On success each staged image
/// reads back exactly as parsed.
#[verifier::rlimit(100)]
pub fn load_programs_into_disk(disk: &mut Disk, lines: &Vec<String>) -> (r: Result<
    Vec<u32>,
    &'static str,
>)
    requires
        old(disk).wf(),
    ensures
        final(disk).wf(),
        ({
            let parsed = spec_parse_programs(lines_view(lines@));
            &&& (r is Ok <==> (parsed matches Some(ps) && spec_loadable(*old(disk), ps)))
            &&& r matches Ok(ids) ==> {
                let ps = parsed.unwrap();
                &&& ids@.len() == ps.len()
                &&& forall|k: int| 0 <= k < ps.len() ==> ids@[k] == (#[trigger] ps[k]).id
                &&& forall|k: int|
                    0 <= k < ps.len() ==> {
                        let info = final(disk).spec_info_for((#[trigger] ps[k]).id);
                        &&& final(disk).has_info_for(ps[k].id)
                        &&& info_matches(info, ps[k])
                        &&& final(disk).spec_data_for(info) == ps[k].data
                    }
                &&& forall|other: u32|
                    #[trigger] old(disk).has_info_for(other) ==> final(disk).has_info_for(other)
                        && final(disk).spec_info_for(other) == old(disk).spec_info_for(other)
                        && final(disk).spec_data_for(old(disk).spec_info_for(other)) == old(
                        disk,
                    ).spec_data_for(old(disk).spec_info_for(other))
            }
        }),
{
    let programs = match parse_programs(lines) {
        Ok(programs) => programs,
        Err(m) => {
            return Err(m);
        },
    };
    let ghost ps = parsed_view(programs@);

    // Validate the whole batch before writing any of it.
    let n = programs.len();
    let mut total: u64 = 0;
    let mut j: usize = 0;
    while j < n
        invariant
            j <= n,
            n == programs@.len(),
            ps == parsed_view(programs@),
            total == sum_data_lens(ps.take(j as int)),
            total <= DISK_SIZE,
            old(disk).wf(),
            spec_parse_programs(lines_view(lines@)) == Some(ps),
            forall|k: int|
                0 <= k < j ==> sizes_consistent(#[trigger] ps[k]) && !old(disk).has_info_for(
                    ps[k].id,
                ),
            forall|a: int, b: int|
                0 <= a < b < j ==> (#[trigger] ps[a].id) != (#[trigger] ps[b].id),
            *disk == *old(disk),
        decreases n - j,
    {
        let p = &programs[j];
        proof {
            assert(ps[j as int] == parsed_of(programs@[j as int]));
        }
        let declared = p.instruction_buffer_size as u128 + p.in_buffer_size as u128
            + p.out_buffer_size as u128 + p.temp_buffer_size as u128;
        if declared != p.data.len() as u128 {
            proof {
                assert(!sizes_consistent(ps[j as int]));
            }
            return Err("Region sizes do not match the image");
        }
        if disk.has_program(p.id) {
            return Err("Program id already on disk");
        }
        let mut a: usize = 0;
        while a < j
            invariant
                a <= j < n,
                n == programs@.len(),
                ps == parsed_view(programs@),
                old(disk).wf(),
                *disk == *old(disk),
                spec_parse_programs(lines_view(lines@)) == Some(ps),
                forall|k: int| 0 <= k < a ==> (#[trigger] ps[k].id) != ps[j as int].id,
                programs@[j as int].id == ps[j as int].id,
            decreases j - a,
        {
            if programs[a].id == programs[j].id {
                proof {
                    assert(ps[a as int].id == ps[j as int].id);
                }
                return Err("Program id repeated in file");
            }
            a = a + 1;
        }
        proof {
            assert(ps.take(j + 1).drop_last() =~= ps.take(j as int));
            assert(ps.take(j + 1).last() == ps[j as int]);
        }
        if p.data.len() as u64 > DISK_SIZE as u64 - total {
            proof {
                lemma_sum_lens_prefix(ps, j + 1);
                assert(sum_data_lens(ps) > DISK_SIZE);
            }
            return Err("Out of bounds disk access");
        }
        total = total + p.data.len() as u64;
        j = j + 1;
    }
    proof {
        assert(ps.take(n as int) =~= ps);
    }
    // The batch fits only if the pool has room beyond the bump pointer.
    let capacity_left = DISK_SIZE - disk.current_data_idx;
    if total > capacity_left as u64 {
        return Err("Out of bounds disk access");
    }

    let mut ids: Vec<u32> = Vec::new();
    let mut w: usize = 0;
    while w < n
        invariant
            w <= n,
            n == programs@.len(),
            ps == parsed_view(programs@),
            old(disk).wf(),
            spec_parse_programs(lines_view(lines@)) == Some(ps),
            spec_loadable(*old(disk), ps),
            disk.wf(),
            disk.program_infos@.len() == old(disk).program_infos@.len() + w,
            disk.current_data_idx == old(disk).current_data_idx + sum_data_lens(
                ps.take(w as int),
            ),
            ids@.len() == w,
            forall|k: int| 0 <= k < w ==> ids@[k] == (#[trigger] ps[k]).id,
            forall|k: int|
                0 <= k < w ==> {
                    let info = disk.spec_info_for((#[trigger] ps[k]).id);
                    &&& disk.has_info_for(ps[k].id)
                    &&& info_matches(info, ps[k])
                    &&& disk.spec_data_for(info) == ps[k].data
                },
            forall|k: int| w <= k < n ==> !disk.has_info_for((#[trigger] ps[k]).id),
            forall|other: u32|
                #[trigger] old(disk).has_info_for(other) ==> disk.has_info_for(other)
                    && disk.spec_info_for(other) == old(disk).spec_info_for(other)
                    && disk.spec_data_for(old(disk).spec_info_for(other)) == old(
                    disk,
                ).spec_data_for(old(disk).spec_info_for(other)),
        decreases n - w,
    {
        let p = &programs[w];
        proof {
            assert(ps[w as int] == parsed_of(programs@[w as int]));
            assert(ps.take(w + 1).drop_last() =~= ps.take(w as int));
            assert(ps.take(w + 1).last() == ps[w as int]);
            lemma_sum_lens_prefix(ps, w + 1);
            lemma_sum_lens_nonneg(ps.take(w as int));
        }
        let ghost d0 = *disk;
        disk.write_program(
            p.id,
            p.priority,
            p.instruction_buffer_size,
            p.in_buffer_size,
            p.out_buffer_size,
            p.temp_buffer_size,
            p.data.as_slice(),
        );
        ids.push(p.id);
        proof {
            crate::disk::lemma_write_then_read(
                d0,
                *disk,
                p.id,
                p.priority,
                p.instruction_buffer_size,
                p.in_buffer_size,
                p.out_buffer_size,
                p.temp_buffer_size,
                p.data@,
            );
            assert forall|k: int| 0 <= k < w implies {
                let info = disk.spec_info_for((#[trigger] ps[k]).id);
                &&& disk.has_info_for(ps[k].id)
                &&& info_matches(info, ps[k])
                &&& disk.spec_data_for(info) == ps[k].data
            } by {
                assert(ps[k].id != ps[w as int].id);
                assert(d0.has_info_for(ps[k].id));
                crate::disk::lemma_write_preserves_programs(
                    d0,
                    *disk,
                    p.id,
                    p.priority,
                    p.instruction_buffer_size,
                    p.in_buffer_size,
                    p.out_buffer_size,
                    p.temp_buffer_size,
                    p.data@,
                    ps[k].id,
                );
            }
            assert forall|other: u32| #[trigger] old(disk).has_info_for(other) implies disk
                .has_info_for(other) && disk.spec_info_for(other) == old(disk).spec_info_for(
                other,
            ) && disk.spec_data_for(old(disk).spec_info_for(other)) == old(disk).spec_data_for(
                old(disk).spec_info_for(other),
            ) by {
                crate::disk::lemma_write_preserves_programs(
                    d0,
                    *disk,
                    p.id,
                    p.priority,
                    p.instruction_buffer_size,
                    p.in_buffer_size,
                    p.out_buffer_size,
                    p.temp_buffer_size,
                    p.data@,
                    other,
                );
            }
        }
        w = w + 1;
    }
    proof {
        assert(ps.take(n as int) =~= ps);
    }
    Ok(ids)
}

/// Helper: a parse failure at line `i` fails the whole file.
proof fn lemma_fail_at(lv: Seq<Seq<u8>>, i: int, st: LoaderState)
    requires
        0 <= i < lv.len(),
        spec_load_lines(lv.take(i), initial_loader_state()) == Some(st),
        spec_step_line(st, lv[i]) is None,
    ensures
        spec_load_lines(lv, initial_loader_state()) is None,
{
    lemma_load_lines_snoc(lv.take(i + 1), initial_loader_state());
    assert(lv.take(i + 1).drop_last() =~= lv.take(i));
    assert(lv.take(i + 1).last() == lv[i]);
    lemma_load_lines_none(lv, initial_loader_state(), i + 1);
}

} // verus!
