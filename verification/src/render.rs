//! The dump engine: renders chunks of bytes as output rows.
//!
//! Each row holds an 8-digit hexadecimal offset, a hex field of byte groups
//! (byte order within a group depending on the endianness mode), and a text
//! sidebar of printable characters. A configured byte limit cuts the hex
//! field and the text sidebar short at exact byte positions.

use vstd::prelude::*;

verus! {

/// Display parameters for a dump run.
pub struct DisplayConfig {
    /// Bytes per hex group; 0 means "auto": the whole row is one group.
    pub group: u8,
    /// Reverse the byte order inside each group.
    pub little_endian: bool,
    /// Maximum number of bytes to render, counted from `seek_offset`.
    pub limit: Option<usize>,
    /// Bytes read and displayed per row.
    pub column: usize,
    /// Starting byte position in the source; base of all reported offsets.
    pub seek_offset: usize,
}

impl DisplayConfig {
    /// A nonzero group size must divide 16.
    pub open spec fn wf(self) -> bool {
        self.group == 0 || 16 as int % (self.group as int) == 0
    }

    /// The group size used for rendering: a configured 0 means the whole row.
    pub open spec fn egroup(self) -> int {
        if self.group == 0 {
            self.column as int
        } else {
            self.group as int
        }
    }
}

/// A nonzero divisor of 16 is at most 16.
proof fn lemma_group_le_16(g: u8)
    requires
        g != 0,
        16 as int % (g as int) == 0,
    ensures
        g <= 16,
{
    if g > 16 {
        vstd::arithmetic::div_mod::lemma_small_mod(16 as nat, g as nat);
    }
}

/// ASCII code of the lowercase hexadecimal digit for d (0 <= d < 16).
pub open spec fn hex_digit(d: int) -> u8 {
    if d < 10 {
        (48 + d) as u8
    } else {
        (87 + d) as u8
    }
}

/// The two lowercase hexadecimal digits of a byte.
pub open spec fn byte_hex(b: u8) -> Seq<u8> {
    seq![hex_digit(b as int / 16), hex_digit(b as int % 16)]
}

/// Hexadecimal digits of p, zero padded on the left to at least `width` digits.
pub open spec fn offset_digits(p: nat, width: nat) -> Seq<u8>
    decreases p, width,
{
    if p == 0 && width == 0 {
        Seq::empty()
    } else {
        offset_digits(p / 16, if width == 0 { 0 } else { (width - 1) as nat }) + seq![
            hex_digit((p % 16) as int),
        ]
    }
}

/// Whether the absolute byte position pos lies at or past the cutoff bound.
pub open spec fn cut_at(bound: Option<int>, pos: int) -> bool {
    match bound {
        Some(b) => pos >= b,
        None => false,
    }
}

/// The byte shown for buffer index idx: a byte of the chunk while idx is
/// within what was read, and the placeholder value 0 beyond it.
pub open spec fn slot_byte(chunk: Seq<u8>, idx: int) -> u8 {
    if 0 <= idx < chunk.len() {
        chunk[idx]
    } else {
        0
    }
}

/// The hex pairs of one group, from slot k on, for the group whose first
/// buffer index is i. Slot order is low-to-high index, or high-to-low in
/// little-endian mode; the cutoff position always advances low-to-high.
/// Returns the rendered bytes and whether the bound cut the group short.
pub open spec fn group_slots(
    chunk: Seq<u8>,
    i: int,
    k: int,
    g: int,
    le: bool,
    prefix: int,
    bound: Option<int>,
) -> (Seq<u8>, bool)
    decreases g - k,
{
    if k >= g {
        (Seq::empty(), false)
    } else if cut_at(bound, prefix + i + k) {
        (Seq::empty(), true)
    } else {
        let idx = if le {
            i + g - 1 - k
        } else {
            i + k
        };
        let rest = group_slots(chunk, i, k + 1, g, le, prefix, bound);
        (byte_hex(slot_byte(chunk, idx)) + rest.0, rest.1)
    }
}

/// The hex field from group start i on: each completed group is followed by
/// one space, and a group cut short by the bound ends the whole field.
pub open spec fn hex_field(
    chunk: Seq<u8>,
    i: int,
    column: int,
    g: int,
    le: bool,
    prefix: int,
    bound: Option<int>,
) -> Seq<u8>
    decreases column - i,
{
    if i >= column || g < 1 {
        Seq::empty()
    } else {
        let grp = group_slots(chunk, i, 0, g, le, prefix, bound);
        if grp.1 {
            grp.0
        } else {
            let next = if i + g <= column {
                i + g
            } else {
                column
            };
            grp.0 + seq![32u8] + hex_field(chunk, next, column, g, le, prefix, bound)
        }
    }
}

/// The printable rendering of a byte: ASCII 32..=126 stands as itself,
/// every other value as a dot.
pub open spec fn text_byte(b: u8) -> u8 {
    if 32 <= b <= 126 {
        b
    } else {
        46
    }
}

/// The text sidebar from buffer index j on; the bound stops it early.
pub open spec fn text_field(
    chunk: Seq<u8>,
    j: int,
    column: int,
    prefix: int,
    bound: Option<int>,
) -> Seq<u8>
    decreases column - j,
{
    if j >= column {
        Seq::empty()
    } else if cut_at(bound, prefix + j) {
        Seq::empty()
    } else {
        seq![text_byte(slot_byte(chunk, j))] + text_field(chunk, j + 1, column, prefix, bound)
    }
}

/// The position at or past which the hex field stops: one past the last
/// byte the limit allows.
pub open spec fn hex_bound(cfg: DisplayConfig) -> Option<int> {
    match cfg.limit {
        Some(l) => Some(cfg.seek_offset + l),
        None => None,
    }
}

/// The position at or past which the text sidebar stops: one byte earlier
/// than the hex field's cutoff.
pub open spec fn text_bound(cfg: DisplayConfig) -> Option<int> {
    match cfg.limit {
        Some(l) => Some(cfg.seek_offset + l - 1),
        None => None,
    }
}

/// One output row for the chunk read at absolute position prefix: the offset
/// as at least eight hex digits, a colon and space, the hex field, one more
/// separating space, and the text sidebar.
pub open spec fn spec_row(chunk: Seq<u8>, prefix: int, cfg: DisplayConfig) -> Seq<u8> {
    offset_digits(prefix as nat, 8) + seq![58u8, 32u8] + hex_field(
        chunk,
        0,
        cfg.column as int,
        cfg.egroup(),
        cfg.little_endian,
        prefix,
        hex_bound(cfg),
    ) + seq![32u8] + text_field(chunk, 0, cfg.column as int, prefix, text_bound(cfg))
}

/// ASCII code of the lowercase hexadecimal digit for d.
fn hex_digit_of(d: u8) -> (r: u8)
    requires
        d < 16,
    ensures
        r == hex_digit(d as int),
{
    if d < 10 {
        48 + d
    } else {
        87 + d
    }
}

/// Appends the two hex digits of b.
fn push_byte_hex(out: &mut Vec<u8>, b: u8)
    ensures
        final(out)@ == old(out)@ + byte_hex(b),
{
    out.push(hex_digit_of(b / 16));
    out.push(hex_digit_of(b % 16));
    assert(final(out)@ =~= old(out)@ + byte_hex(b));
}

/// Appends the hex digits of p, zero padded to at least `width` digits.
fn push_offset_digits(out: &mut Vec<u8>, p: usize, width: usize)
    ensures
        final(out)@ == old(out)@ + offset_digits(p as nat, width as nat),
    decreases p, width,
{
    if p == 0 && width == 0 {
    } else {
        let rest_width = if width == 0 {
            0
        } else {
            width - 1
        };
        push_offset_digits(out, p / 16, rest_width);
        out.push(hex_digit_of((p % 16) as u8));
        assert(final(out)@ =~= old(out)@ + offset_digits(p as nat, width as nat));
    }
}

/// The cutoff bound as a mathematical position.
pub open spec fn bound_int(bound: Option<usize>) -> Option<int> {
    match bound {
        Some(b) => Some(b as int),
        None => None,
    }
}

/// Appends the hex pairs of the group whose first buffer index is i;
/// reports whether the bound cut the group short.
fn push_group(
    out: &mut Vec<u8>,
    chunk: &Vec<u8>,
    i: usize,
    g: usize,
    le: bool,
    prefix: usize,
    bound: Option<usize>,
) -> (stopped: bool)
    requires
        g >= 1,
        prefix + i + g <= usize::MAX,
    ensures
        final(out)@ == old(out)@ + group_slots(
            chunk@,
            i as int,
            0,
            g as int,
            le,
            prefix as int,
            bound_int(bound),
        ).0,
        stopped == group_slots(chunk@, i as int, 0, g as int, le, prefix as int, bound_int(bound)).1,
{
    let ghost full = group_slots(chunk@, i as int, 0, g as int, le, prefix as int, bound_int(bound));
    let mut k: usize = 0;
    let mut stopped = false;
    while k < g && !stopped
        invariant
            k <= g,
            g >= 1,
            prefix + i + g <= usize::MAX,
            full == group_slots(chunk@, i as int, 0, g as int, le, prefix as int, bound_int(bound)),
            stopped ==> out@ == old(out)@ + full.0 && full.1,
            !stopped ==> old(out)@ + full.0 == out@ + group_slots(
                chunk@,
                i as int,
                k as int,
                g as int,
                le,
                prefix as int,
                bound_int(bound),
            ).0,
            !stopped ==> full.1 == group_slots(
                chunk@,
                i as int,
                k as int,
                g as int,
                le,
                prefix as int,
                bound_int(bound),
            ).1,
        decreases g - k + (if stopped { 0int } else { 1int }),
    {
        let pos = prefix + i + k;
        let past_bound = match bound {
            Some(b) => pos >= b,
            None => false,
        };
        if past_bound {
            stopped = true;
        } else {
            let idx = if le {
                i + g - 1 - k
            } else {
                i + k
            };
            let b = if idx < chunk.len() {
                chunk[idx]
            } else {
                0
            };
            assert(b == slot_byte(chunk@, idx as int));
            push_byte_hex(out, b);
            k = k + 1;
        }
    }
    if !stopped {
        assert(group_slots(chunk@, i as int, k as int, g as int, le, prefix as int, bound_int(bound)).0
            =~= Seq::<u8>::empty());
        assert(out@ =~= old(out)@ + full.0);
    }
    stopped
}

/// Renders one output row for the chunk of bytes read at absolute position
/// prefix. Indices of the row beyond the chunk show the zero placeholder in
/// the hex field and a dot in the text sidebar.
pub fn render_row(chunk: &Vec<u8>, prefix: usize, cfg: &DisplayConfig) -> (row: Vec<u8>)
    requires
        cfg.wf(),
        chunk@.len() <= cfg.column,
        prefix + cfg.column + 16 <= usize::MAX,
        match cfg.limit {
            Some(l) => cfg.seek_offset + l <= usize::MAX && prefix < cfg.seek_offset + l,
            None => true,
        },
    ensures
        row@ == spec_row(chunk@, prefix as int, *cfg),
{
    let column = cfg.column;
    let le = cfg.little_endian;
    let mut row: Vec<u8> = Vec::new();
    push_offset_digits(&mut row, prefix, 8);
    row.push(58);  // ':'
    row.push(32);  // ' '
    let ghost head = row@;
    assert(head =~= offset_digits(prefix as nat, 8) + seq![58u8, 32u8]);

    // hex field
    let g: usize = if cfg.group == 0 {
        column
    } else {
        cfg.group as usize
    };
    proof {
        if cfg.group != 0 {
            lemma_group_le_16(cfg.group);
        }
        assert(g as int == cfg.egroup());
    }
    let bound: Option<usize> = match cfg.limit {
        Some(l) => Some(cfg.seek_offset + l),
        None => None,
    };
    assert(bound_int(bound) == hex_bound(*cfg));
    let ghost hfull = hex_field(
        chunk@,
        0,
        column as int,
        cfg.egroup(),
        le,
        prefix as int,
        hex_bound(*cfg),
    );
    let mut i: usize = 0;
    let mut stopped = false;
    while i < column && !stopped
        invariant
            column == cfg.column,
            g as int == cfg.egroup(),
            g <= 16 || (cfg.group == 0 && g == column),
            cfg.group == 0 ==> i == 0 || i >= column,
            prefix + column + 16 <= usize::MAX,
            bound_int(bound) == hex_bound(*cfg),
            hfull == hex_field(chunk@, 0, column as int, g as int, le, prefix as int, bound_int(bound)),
            stopped ==> row@ == head + hfull,
            !stopped && i <= column ==> head + hfull == row@ + hex_field(
                chunk@,
                i as int,
                column as int,
                g as int,
                le,
                prefix as int,
                bound_int(bound),
            ),
            !stopped && i > column ==> head + hfull == row@,
        decreases (if i <= column {
            column - i
        } else {
            0int
        }) + (if stopped {
            0int
        } else {
            1int
        }),
    {
        let st = push_group(&mut row, chunk, i, g, le, prefix, bound);
        if st {
            stopped = true;
        } else {
            row.push(32);  // ' '
            proof {
                let gsl = group_slots(
                    chunk@,
                    i as int,
                    0,
                    g as int,
                    le,
                    prefix as int,
                    bound_int(bound),
                );
                assert(hex_field(chunk@, i as int, column as int, g as int, le, prefix as int,
                    bound_int(bound)) == gsl.0 + seq![32u8] + hex_field(
                    chunk@,
                    if i + g <= column { i + g } else { column as int },
                    column as int,
                    g as int,
                    le,
                    prefix as int,
                    bound_int(bound),
                ));
            }
            i = i + g;
            proof {
                if i >= column {
                    assert(hex_field(chunk@, column as int, column as int, g as int, le,
                        prefix as int, bound_int(bound)) =~= Seq::<u8>::empty());
                }
            }
        }
    }
    assert(row@ == head + hfull);

    // separator between the hex field and the text sidebar
    row.push(32);  // ' '
    let ghost head2 = row@;
    assert(head2 =~= head + hfull + seq![32u8]);

    // text sidebar
    let tbound: Option<usize> = match cfg.limit {
        Some(l) => Some(cfg.seek_offset + l - 1),
        None => None,
    };
    assert(bound_int(tbound) == text_bound(*cfg));
    let ghost tfull = text_field(chunk@, 0, column as int, prefix as int, text_bound(*cfg));
    let mut j: usize = 0;
    let mut tstopped = false;
    while j < column && !tstopped
        invariant
            column == cfg.column,
            j <= column,
            prefix + column + 16 <= usize::MAX,
            bound_int(tbound) == text_bound(*cfg),
            tfull == text_field(chunk@, 0, column as int, prefix as int, bound_int(tbound)),
            tstopped ==> row@ == head2 + tfull,
            !tstopped ==> head2 + tfull == row@ + text_field(
                chunk@,
                j as int,
                column as int,
                prefix as int,
                bound_int(tbound),
            ),
        decreases column - j + (if tstopped { 0int } else { 1int }),
    {
        let pos = prefix + j;
        let past_bound = match tbound {
            Some(b) => pos >= b,
            None => false,
        };
        if past_bound {
            tstopped = true;
        } else {
            let b = if j < chunk.len() {
                chunk[j]
            } else {
                0
            };
            assert(b == slot_byte(chunk@, j as int));
            if 32 <= b && b <= 126 {
                row.push(b);
            } else {
                row.push(46);  // '.'
            }
            j = j + 1;
        }
    }
    assert(row@ == head2 + tfull);
    assert(row@ =~= spec_row(chunk@, prefix as int, *cfg));
    row
}

/// The pre-check before each row: stop once the row's starting position has
/// reached the end of the limited range.
pub fn should_stop(cfg: &DisplayConfig, prefix: usize) -> (stop: bool)
    requires
        match cfg.limit {
            Some(l) => cfg.seek_offset + l <= usize::MAX,
            None => true,
        },
    ensures
        stop == cut_at(hex_bound(*cfg), prefix as int),
{
    match cfg.limit {
        Some(l) => prefix >= cfg.seek_offset + l,
        None => false,
    }
}

/// Everything the dump prints for the data that follows the seek position,
/// from the row starting at absolute position prefix on: rows of column
/// bytes, each ended by a newline, until the data or the limit runs out.
/// The offset advances by the full column width even after a short chunk.
pub open spec fn spec_dump_from(data: Seq<u8>, prefix: int, cfg: DisplayConfig) -> Seq<u8>
    decreases data.len(),
{
    if cfg.column < 1 {
        Seq::empty()
    } else if cut_at(hex_bound(cfg), prefix) {
        Seq::empty()
    } else if data.len() == 0 {
        Seq::empty()
    } else {
        let m = if data.len() < cfg.column {
            data.len() as int
        } else {
            cfg.column as int
        };
        spec_row(data.take(m), prefix, cfg) + seq![10u8] + spec_dump_from(
            data.skip(m),
            prefix + cfg.column,
            cfg,
        )
    }
}

/// The whole output of a dump run over the bytes that follow the seek
/// position.
pub open spec fn spec_dump(data: Seq<u8>, cfg: DisplayConfig) -> Seq<u8> {
    spec_dump_from(data, cfg.seek_offset as int, cfg)
}

/// Dumps all of data, the bytes that follow the seek position, as rows of
/// column bytes each.
pub fn dump(data: &Vec<u8>, cfg: &DisplayConfig) -> (out: Vec<u8>)
    requires
        cfg.wf(),
        cfg.seek_offset + data@.len() + cfg.column + 16 <= usize::MAX,
        match cfg.limit {
            Some(l) => cfg.seek_offset + l <= usize::MAX,
            None => true,
        },
    ensures
        out@ == spec_dump(data@, *cfg),
{
    let mut out: Vec<u8> = Vec::new();
    if cfg.column == 0 {
        return out;
    }
    let mut pos: usize = 0;
    let mut prefix: usize = cfg.seek_offset;
    let mut done = false;
    proof {
        assert(data@.skip(0) =~= data@);
        assert(out@ + spec_dump_from(data@, cfg.seek_offset as int, *cfg) =~= spec_dump_from(
            data@,
            cfg.seek_offset as int,
            *cfg,
        ));
    }
    while !done
        invariant
            cfg.wf(),
            cfg.column >= 1,
            cfg.seek_offset + data@.len() + cfg.column + 16 <= usize::MAX,
            match cfg.limit {
                Some(l) => cfg.seek_offset + l <= usize::MAX,
                None => true,
            },
            pos <= data@.len(),
            prefix as int == cfg.seek_offset + pos || (pos == data@.len() && prefix
                <= cfg.seek_offset + data@.len() + cfg.column),
            spec_dump(data@, *cfg) == out@ + spec_dump_from(
                data@.skip(pos as int),
                prefix as int,
                *cfg,
            ),
            done ==> spec_dump_from(data@.skip(pos as int), prefix as int, *cfg)
                == Seq::<u8>::empty(),
        decreases data@.len() - pos + (if done {
            0int
        } else {
            1int
        }),
    {
        if should_stop(cfg, prefix) {
            done = true;
        } else if pos == data.len() {
            proof {
                assert(data@.skip(pos as int) =~= Seq::<u8>::empty());
            }
            done = true;
        } else {
            let m = if data.len() - pos < cfg.column {
                data.len() - pos
            } else {
                cfg.column
            };
            let mut chunk: Vec<u8> = Vec::new();
            let mut t: usize = 0;
            while t < m
                invariant
                    t <= m,
                    pos + m <= data@.len(),
                    data@.len() <= usize::MAX,
                    chunk@ == data@.subrange(pos as int, pos + t),
                decreases m - t,
            {
                chunk.push(data[pos + t]);
                assert(chunk@ =~= data@.subrange(pos as int, pos + t + 1));
                t = t + 1;
            }
            let ghost rest = data@.skip(pos as int);
            proof {
                assert(chunk@ =~= rest.take(m as int));
                assert(data@.skip(pos + m) =~= rest.skip(m as int));
            }
            let mut row = render_row(&chunk, prefix, cfg);
            out.append(&mut row);
            out.push(10);  // '\n'
            proof {
                assert(spec_dump_from(rest, prefix as int, *cfg) == spec_row(
                    rest.take(m as int),
                    prefix as int,
                    *cfg,
                ) + seq![10u8] + spec_dump_from(rest.skip(m as int), prefix + cfg.column, *cfg));
            }
            pos = pos + m;
            prefix = prefix + cfg.column;
        }
    }
    out
}

/// An empty input produces no rows: the dump output is empty.
pub proof fn lemma_dump_empty(cfg: DisplayConfig)
    ensures
        spec_dump(Seq::empty(), cfg) == Seq::<u8>::empty(),
{
}

/// A zero offset padded to `width` digits is `width` zero digits.
pub proof fn lemma_offset_digits_zero(width: nat)
    ensures
        offset_digits(0, width) =~= Seq::new(width, |i: int| 48u8),
    decreases width,
{
    if width > 0 {
        lemma_offset_digits_zero((width - 1) as nat);
        assert(offset_digits(0, width) =~= Seq::new(width, |i: int| 48u8));
    }
}

/// An input of exactly the column width, dumped with no limit and no seek,
/// produces exactly one row: the row over all of the data, followed by one
/// newline, and its offset field is eight zero digits.
pub proof fn lemma_dump_single_row(data: Seq<u8>, cfg: DisplayConfig)
    requires
        cfg.column >= 1,
        data.len() == cfg.column,
        cfg.limit is None,
        cfg.seek_offset == 0,
    ensures
        spec_dump(data, cfg) == spec_row(data, 0, cfg) + seq![10u8],
        spec_row(data, 0, cfg).take(8) == Seq::new(8, |i: int| 48u8),
{
    assert(data.take(cfg.column as int) =~= data);
    assert(data.skip(cfg.column as int) =~= Seq::<u8>::empty());
    assert(spec_dump_from(Seq::<u8>::empty(), cfg.column as int, cfg) == Seq::<u8>::empty());
    assert(spec_dump(data, cfg) =~= spec_row(data, 0, cfg) + seq![10u8]);
    lemma_offset_digits_zero(8);
    assert(spec_row(data, 0, cfg).take(8) =~= Seq::new(8, |i: int| 48u8));
}

/// Number of slots of one group, from slot k on, whose hex pair shows a real
/// byte of the chunk (buffer index below n) rather than the zero placeholder.
/// The slot rule is the one of group_slots.
pub open spec fn group_real_pairs(n: int, i: int, k: int, g: int, le: bool) -> int
    decreases g - k,
{
    if k >= g {
        0
    } else {
        let idx = if le {
            i + g - 1 - k
        } else {
            i + k
        };
        (if idx < n {
            1int
        } else {
            0int
        }) + group_real_pairs(n, i, k + 1, g, le)
    }
}

/// Number of hex pairs over the whole hex field, group by group as in
/// hex_field, that show a real byte of the chunk.
pub open spec fn field_real_pairs(n: int, i: int, column: int, g: int, le: bool) -> int
    decreases column - i,
{
    if i >= column || g < 1 {
        0
    } else {
        let next = if i + g <= column {
            i + g
        } else {
            column
        };
        group_real_pairs(n, i, 0, g, le) + field_real_pairs(n, next, column, g, le)
    }
}

/// From slot k on, a group holds min(g - k, c) real pairs in little-endian
/// order and max(0, c - k) in big-endian order, where c is the number of
/// real bytes the whole group covers.
proof fn lemma_group_real_pairs(n: int, i: int, k: int, g: int, le: bool)
    requires
        0 <= k <= g,
        0 <= i,
        0 <= n,
    ensures
        ({
            let c = if n - i >= g {
                g
            } else if n - i <= 0 {
                0int
            } else {
                n - i
            };
            group_real_pairs(n, i, k, g, le) == (if le {
                if g - k <= c {
                    g - k
                } else {
                    c
                }
            } else {
                if c - k >= 0 {
                    c - k
                } else {
                    0int
                }
            })
        }),
    decreases g - k,
{
    if k < g {
        lemma_group_real_pairs(n, i, k + 1, g, le);
    }
}

/// From group start i on, the hex field holds max(0, n - i) real pairs.
proof fn lemma_field_real_pairs(n: int, i: int, column: int, g: int, le: bool)
    requires
        g >= 1,
        0 <= i,
        0 <= n <= column,
    ensures
        field_real_pairs(n, i, column, g, le) == (if n - i >= 0 {
            n - i
        } else {
            0int
        }),
    decreases column - i,
{
    if i < column {
        lemma_group_real_pairs(n, i, 0, g, le);
        let next = if i + g <= column {
            i + g
        } else {
            column
        };
        lemma_field_real_pairs(n, next, column, g, le);
    }
}

/// With no limit bound, no group is ever cut: from slot k on, a group
/// prints exactly one two-digit pair per slot.
pub proof fn lemma_group_slots_uncut(
    chunk: Seq<u8>,
    i: int,
    k: int,
    g: int,
    le: bool,
    prefix: int,
)
    requires
        0 <= k <= g,
    ensures
        !group_slots(chunk, i, k, g, le, prefix, None).1,
        group_slots(chunk, i, k, g, le, prefix, None).0.len() == 2 * (g - k),
    decreases g - k,
{
    if k < g {
        lemma_group_slots_uncut(chunk, i, k + 1, g, le, prefix);
    }
}

/// When no limit cuts the row, the hex field shows exactly one real pair per
/// byte of the chunk, in either byte order: the pair count, excluding the
/// zero placeholders past the chunk, is min(column width, bytes remaining).
pub proof fn lemma_row_real_pairs(chunk: Seq<u8>, cfg: DisplayConfig)
    requires
        cfg.wf(),
        cfg.column >= 1,
        chunk.len() <= cfg.column,
    ensures
        field_real_pairs(
            chunk.len() as int,
            0,
            cfg.column as int,
            cfg.egroup(),
            cfg.little_endian,
        ) == chunk.len(),
{
    lemma_field_real_pairs(
        chunk.len() as int,
        0,
        cfg.column as int,
        cfg.egroup(),
        cfg.little_endian,
    );
}

} // verus!
