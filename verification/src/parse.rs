//! The argument parser: resolves display parameters from the process's
//! argument list, with best-effort handling of malformed values.

use vstd::prelude::*;

use crate::render::DisplayConfig;

verus! {

/// Whether c is an ASCII decimal digit.
pub open spec fn is_digit(c: char) -> bool {
    48 <= c as int <= 57
}

/// The numeric value of an ASCII decimal digit.
pub open spec fn digit_val(c: char) -> int {
    c as int - 48
}

/// Whether every character of s is an ASCII decimal digit.
pub open spec fn all_digits(s: Seq<char>) -> bool {
    forall|j: int| 0 <= j < s.len() ==> is_digit(#[trigger] s[j])
}

/// The value of a sequence of decimal digits, most significant first.
pub open spec fn digits_val(s: Seq<char>) -> int
    decreases s.len(),
{
    if s.len() == 0 {
        0
    } else {
        10 * digits_val(s.drop_last()) + digit_val(s.last())
    }
}

/// The digit part of a numeric argument: everything after an optional
/// leading plus sign.
pub open spec fn num_body(s: Seq<char>) -> Seq<char> {
    if s.len() > 0 && s[0] == '+' {
        s.drop_first()
    } else {
        s
    }
}

/// The value a numeric argument denotes: an optional plus sign, then at
/// least one decimal digit and nothing else; None for any other shape.
pub open spec fn spec_parse_num(s: Seq<char>) -> Option<int> {
    let b = num_body(s);
    if b.len() > 0 && all_digits(b) {
        Some(digits_val(b))
    } else {
        None
    }
}

/// What parsing an argument as a usize yields: its value when the shape is
/// numeric and the value fits, None otherwise.
pub open spec fn spec_parse_usize(s: Seq<char>) -> Option<usize> {
    match spec_parse_num(s) {
        Some(v) => if v <= usize::MAX {
            Some(v as usize)
        } else {
            None
        },
        None => None,
    }
}

/// What parsing an argument as a u8 yields.
pub open spec fn spec_parse_u8(s: Seq<char>) -> Option<u8> {
    match spec_parse_num(s) {
        Some(v) => if v <= 255 {
            Some(v as u8)
        } else {
            None
        },
        None => None,
    }
}

/// A digit sequence has a nonnegative value.
proof fn lemma_digits_val_nonneg(s: Seq<char>)
    requires
        all_digits(s),
    ensures
        digits_val(s) >= 0,
    decreases s.len(),
{
    if s.len() > 0 {
        assert(is_digit(s[s.len() - 1]));
        assert(all_digits(s.drop_last()));
        lemma_digits_val_nonneg(s.drop_last());
    }
}

/// Extending a digit sequence by one digit multiplies its value by ten and
/// adds the digit.
proof fn lemma_digits_val_step(s: Seq<char>, j: int)
    requires
        0 <= j < s.len(),
    ensures
        digits_val(s.take(j + 1)) == 10 * digits_val(s.take(j)) + digit_val(s[j]),
{
    assert(s.take(j + 1).drop_last() =~= s.take(j));
    assert(s.take(j + 1).last() == s[j]);
}

/// The value of a prefix of a digit sequence never exceeds the whole value.
proof fn lemma_digits_val_prefix(s: Seq<char>, j: int)
    requires
        all_digits(s),
        0 <= j <= s.len(),
    ensures
        digits_val(s.take(j)) <= digits_val(s),
    decreases s.len() - j,
{
    if j == s.len() {
        assert(s.take(j) =~= s);
    } else {
        assert(all_digits(s.take(j)));
        lemma_digits_val_nonneg(s.take(j));
        lemma_digits_val_step(s, j);
        assert(is_digit(s[j]));
        lemma_digits_val_prefix(s, j + 1);
    }
}

/// Parses an argument as the original's usize flag values are parsed: an
/// optional leading plus sign, then decimal digits; anything else, or a
/// value that does not fit, is rejected.
pub fn parse_usize_arg(s: &String) -> (r: Option<usize>)
    ensures
        r == spec_parse_usize(s@),
{
    let st = s.as_str();
    let n = st.unicode_len();
    let mut i: usize = 0;
    if n > 0 && st.get_char(0) == '+' {
        i = 1;
    }
    let start = i;
    proof {
        assert(num_body(s@) =~= s@.skip(start as int));
    }
    if i == n {
        return None;
    }
    let ghost body = s@.skip(start as int);
    let mut acc: usize = 0;
    while i < n
        invariant
            st@ == s@,
            start <= i <= n,
            n == s@.len(),
            body == s@.skip(start as int),
            body == num_body(s@),
            body.len() > 0,
            forall|j: int| start <= j < i ==> is_digit(#[trigger] s@[j]),
            acc as int == digits_val(s@.subrange(start as int, i as int)),
        decreases n - i,
    {
        let c = st.get_char(i);
        let u = c as u32;
        if u < 48 || u > 57 {
            proof {
                assert(body[i - start] == s@[i as int]);
                assert(!is_digit(s@[i as int]));
                assert(!all_digits(body));
            }
            return None;
        }
        let d = (u - 48) as usize;
        proof {
            assert(body[i - start] == s@[i as int]);
            assert(is_digit(s@[i as int]));
            assert(d == digit_val(s@[i as int]));
        }
        let mut overflowed = false;
        match acc.checked_mul(10) {
            Some(a) => {
                match a.checked_add(d) {
                    Some(v) => {
                        proof {
                            assert(s@.subrange(start as int, i as int) =~= body.take(i - start));
                            assert(s@.subrange(start as int, i + 1) =~= body.take(i + 1 - start));
                            lemma_digits_val_step(body, i - start);
                        }
                        acc = v;
                    },
                    None => {
                        overflowed = true;
                    },
                }
            },
            None => {
                overflowed = true;
            },
        }
        if overflowed {
            // The digits read so far already exceed the largest usize, so the
            // whole argument's value does too, whatever follows.
            proof {
                if all_digits(body) {
                    assert(s@.subrange(start as int, i as int) =~= body.take(i - start));
                    lemma_digits_val_step(body, i - start);
                    lemma_digits_val_nonneg(body.take(i - start));
                    assert(digits_val(body.take(i + 1 - start)) > usize::MAX);
                    lemma_digits_val_prefix(body, i + 1 - start);
                }
            }
            return None;
        }
        i = i + 1;
    }
    proof {
        assert(s@.subrange(start as int, n as int) =~= body);
        assert(forall|j: int| 0 <= j < body.len() ==> is_digit(#[trigger] body[j]));
    }
    Some(acc)
}

/// Parses an argument as a u8 flag value: same shape as parse_usize_arg,
/// rejecting values above 255.
pub fn parse_u8_arg(s: &String) -> (r: Option<u8>)
    ensures
        r == spec_parse_u8(s@),
{
    let r = parse_usize_arg(s);
    proof {
        match spec_parse_num(s@) {
            Some(v) => {
                lemma_digits_val_nonneg(num_body(s@));
                if v > usize::MAX {
                    assert(v > 255);
                }
            },
            None => {},
        }
    }
    match r {
        Some(v) => if v <= 255 {
            Some(v as u8)
        } else {
            None
        },
        None => None,
    }
}

/// The index of the first argument equal to flag, or -1 when none is.
pub open spec fn spec_first_pos(args: Seq<String>, flag: Seq<char>) -> int
    decreases args.len(),
{
    if args.len() == 0 {
        -1
    } else if args[0]@ == flag {
        0
    } else {
        let r = spec_first_pos(args.drop_first(), flag);
        if r < 0 {
            -1
        } else {
            r + 1
        }
    }
}

/// When i is the first index holding flag, spec_first_pos finds it.
proof fn lemma_first_pos_found(args: Seq<String>, flag: Seq<char>, i: int)
    requires
        0 <= i < args.len(),
        args[i]@ == flag,
        forall|j: int| 0 <= j < i ==> args[j]@ != flag,
    ensures
        spec_first_pos(args, flag) == i,
    decreases args.len(),
{
    if i > 0 {
        assert(args[0]@ != flag);
        let rest = args.drop_first();
        assert(rest[i - 1]@ == flag);
        assert(forall|j: int| 0 <= j < i - 1 ==> rest[j]@ == args[j + 1]@ && #[trigger] rest[j]@
            != flag);
        lemma_first_pos_found(rest, flag, i - 1);
    }
}

/// When no argument holds flag, spec_first_pos is -1.
proof fn lemma_first_pos_absent(args: Seq<String>, flag: Seq<char>)
    requires
        forall|j: int| 0 <= j < args.len() ==> args[j]@ != flag,
    ensures
        spec_first_pos(args, flag) == -1,
    decreases args.len(),
{
    if args.len() > 0 {
        let rest = args.drop_first();
        assert(forall|j: int| 0 <= j < rest.len() ==> rest[j]@ == args[j + 1]@ && #[trigger] rest[j]@
            != flag);
        lemma_first_pos_absent(rest, flag);
    }
}

/// Whether s is the two characters '-' and c.
fn is_dash_flag(s: &String, c: char) -> (r: bool)
    ensures
        r == (s@ == seq!['-', c]),
{
    let st = s.as_str();
    let n = st.unicode_len();
    if n != 2 {
        proof {
            assert(seq!['-', c].len() == 2);
        }
        false
    } else {
        let c0 = st.get_char(0);
        let c1 = st.get_char(1);
        let r = c0 == '-' && c1 == c;
        proof {
            if r {
                assert(s@ =~= seq!['-', c]);
            } else {
                assert(s@ != seq!['-', c]) by {
                    if s@ == seq!['-', c] {
                        assert(s@[0] == '-' && s@[1] == c);
                    }
                }
            }
        }
        r
    }
}

/// The index of the first occurrence of the flag "-c" among the arguments.
fn find_flag(args: &Vec<String>, c: char) -> (r: Option<usize>)
    ensures
        match r {
            Some(p) => p < args@.len() && spec_first_pos(args@, seq!['-', c]) == p as int,
            None => spec_first_pos(args@, seq!['-', c]) == -1,
        },
{
    let n = args.len();
    let mut i: usize = 0;
    while i < n
        invariant
            i <= n,
            n == args@.len(),
            forall|j: int| 0 <= j < i ==> args@[j]@ != seq!['-', c],
        decreases n - i,
    {
        if is_dash_flag(&args[i], c) {
            proof {
                lemma_first_pos_found(args@, seq!['-', c], i as int);
            }
            return Some(i);
        }
        i = i + 1;
    }
    proof {
        lemma_first_pos_absent(args@, seq!['-', c]);
    }
    None
}

/// The value following the first occurrence of flag, when there is one.
pub open spec fn spec_flag_value(args: Seq<String>, flag: Seq<char>) -> Option<Seq<char>> {
    let p = spec_first_pos(args, flag);
    if p >= 0 && p + 1 < args.len() {
        Some(args[p + 1]@)
    } else {
        None
    }
}

/// Whether the little-endian flag is present.
pub open spec fn spec_little_endian(args: Seq<String>) -> bool {
    spec_first_pos(args, seq!['-', 'e']) >= 0
}

/// The resolved group size: 2 by default, 4 when the little-endian flag is
/// present, overridden by a group flag value that is 0 or divides 16; any
/// other value, or a malformed one, is silently ignored.
pub open spec fn spec_group(args: Seq<String>) -> u8 {
    let base: u8 = if spec_little_endian(args) {
        4
    } else {
        2
    };
    match spec_flag_value(args, seq!['-', 'g']) {
        Some(v) => match spec_parse_u8(v) {
            Some(n) => if n == 0 || 16 as int % (n as int) == 0 {
                n
            } else {
                base
            },
            None => base,
        },
        None => base,
    }
}

/// The resolved byte limit: none unless a limit flag with a numeric value is
/// present.
pub open spec fn spec_limit(args: Seq<String>) -> Option<usize> {
    match spec_flag_value(args, seq!['-', 'l']) {
        Some(v) => spec_parse_usize(v),
        None => None,
    }
}

/// The resolved column width: 16 unless overridden by a numeric value.
pub open spec fn spec_column(args: Seq<String>) -> usize {
    match spec_flag_value(args, seq!['-', 'c']) {
        Some(v) => match spec_parse_usize(v) {
            Some(n) => n,
            None => 16,
        },
        None => 16,
    }
}

/// The resolved seek offset: 0 unless overridden by a numeric value.
pub open spec fn spec_seek(args: Seq<String>) -> usize {
    match spec_flag_value(args, seq!['-', 's']) {
        Some(v) => match spec_parse_usize(v) {
            Some(n) => n,
            None => 0,
        },
        None => 0,
    }
}

/// Whether the argument at index j is consumed as the value of the first
/// occurrence of a value-taking flag.
pub open spec fn spec_is_consumed(args: Seq<String>, j: int) -> bool {
    ||| (spec_first_pos(args, seq!['-', 'g']) >= 0 && j == spec_first_pos(args, seq!['-', 'g']) + 1)
    ||| (spec_first_pos(args, seq!['-', 'l']) >= 0 && j == spec_first_pos(args, seq!['-', 'l']) + 1)
    ||| (spec_first_pos(args, seq!['-', 'c']) >= 0 && j == spec_first_pos(args, seq!['-', 'c']) + 1)
    ||| (spec_first_pos(args, seq!['-', 's']) >= 0 && j == spec_first_pos(args, seq!['-', 's']) + 1)
}

/// Whether s is one of the recognized flag names.
pub open spec fn spec_is_flag_name(s: Seq<char>) -> bool {
    ||| s == seq!['-', 'e']
    ||| s == seq!['-', 'g']
    ||| s == seq!['-', 'l']
    ||| s == seq!['-', 'c']
    ||| s == seq!['-', 's']
}

/// The input file path: the final argument, when there is one and it is
/// neither a recognized flag name nor consumed as a flag's value; its
/// absence selects the standard input.
pub open spec fn spec_file(args: Seq<String>) -> Option<Seq<char>> {
    if args.len() == 0 {
        None
    } else {
        let j = args.len() - 1;
        let last = args[j]@;
        if spec_is_flag_name(last) || spec_is_consumed(args, j) {
            None
        } else {
            Some(last)
        }
    }
}

/// Resolves the display parameters and the input selection from the process
/// arguments (without the program name). Flags are scanned independently;
/// malformed or rejected values silently keep the prior default.
pub fn parse_args(args: &Vec<String>) -> (r: (DisplayConfig, Option<String>))
    ensures
        r.0.little_endian == spec_little_endian(args@),
        r.0.group == spec_group(args@),
        r.0.limit == spec_limit(args@),
        r.0.column == spec_column(args@),
        r.0.seek_offset == spec_seek(args@),
        r.0.wf(),
        match (r.1, spec_file(args@)) {
            (Some(s), Some(t)) => s@ == t,
            (None, None) => true,
            _ => false,
        },
{
    let n = args.len();
    let little_endian = match find_flag(args, 'e') {
        Some(_) => true,
        None => false,
    };
    let mut group: u8 = if little_endian {
        4
    } else {
        2
    };
    if let Some(p) = find_flag(args, 'g') {
        if p + 1 < n {
            if let Some(v) = parse_u8_arg(&args[p + 1]) {
                if v == 0 || 16 % v == 0 {
                    group = v;
                }
            }
        }
    }

    let mut limit: Option<usize> = None;
    if let Some(p) = find_flag(args, 'l') {
        if p + 1 < n {
            limit = parse_usize_arg(&args[p + 1]);
        }
    }

    let mut column: usize = 16;
    if let Some(p) = find_flag(args, 'c') {
        if p + 1 < n {
            if let Some(v) = parse_usize_arg(&args[p + 1]) {
                column = v;
            }
        }
    }

    let mut seek_offset: usize = 0;
    if let Some(p) = find_flag(args, 's') {
        if p + 1 < n {
            if let Some(v) = parse_usize_arg(&args[p + 1]) {
                seek_offset = v;
            }
        }
    }

    let mut file: Option<String> = None;
    if args.len() > 0 {
        let j = args.len() - 1;
        let last = &args[j];
        let is_name = is_dash_flag(last, 'e') || is_dash_flag(last, 'g') || is_dash_flag(last, 'l')
            || is_dash_flag(last, 'c') || is_dash_flag(last, 's');
        let mut consumed = false;
        if let Some(p) = find_flag(args, 'g') {
            if p + 1 == j {
                consumed = true;
            }
        }
        if let Some(p) = find_flag(args, 'l') {
            if p + 1 == j {
                consumed = true;
            }
        }
        if let Some(p) = find_flag(args, 'c') {
            if p + 1 == j {
                consumed = true;
            }
        }
        if let Some(p) = find_flag(args, 's') {
            if p + 1 == j {
                consumed = true;
            }
        }
        if !is_name && !consumed {
            file = Some(last.clone());
        }
    }

    let cfg = DisplayConfig { group, little_endian, limit, column, seek_offset };
    (cfg, file)
}

} // verus!
