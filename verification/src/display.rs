use vstd::prelude::*;
use vstd::arithmetic::div_mod::lemma_mod_multiples_vanish;
use vstd::seq_lib::*;
use vstd::string::StrSliceExecFns;
use vstd::utf8::encode_utf8;

use crate::symbols::CharBitMap;

verus! {

// The display writer resolves `:token:` markers in a message against the
// symbol table and turns the message into a sequence of controller commands,
// tracking cursor column, row, scroll and glyph-slot state. The hardware
// transfer of the commands is the caller's business; everything decided here
// is stated against the spec-level rendering below.

/// One command for the display controller.
#[derive(Clone, Copy, PartialEq, Eq, Debug)]
pub enum LcdCommand {
    SetGlyph { slot: u8, pattern: [u8; 8] },
    SetPosition { col: u8, row: u8 },
    Write { code: u8 },
    ScrollLeft { count: u8 },
    Clear,
    Home,
}

/// The cursor and slot state of the writer, as the contracts speak of it.
pub ghost struct DisplayModel {
    pub row: u8,
    pub col: u8,
    pub move_forward: bool,
    pub sym_index: u8,
    pub is_static: bool,
}

/// Adding one, stopping at the top of the byte range.
pub open spec fn sat_inc(x: u8) -> u8 {
    if x == 255 {
        255
    } else {
        (x + 1) as u8
    }
}

/// The next of the controller's eight programmable glyph slots, reused
/// round-robin.
pub open spec fn next_slot(s: u8) -> u8 {
    if s >= 7 {
        0
    } else {
        (s + 1) as u8
    }
}

/// The commands of one cursor advance: a position command while forward
/// tracking is on, then a scroll once the column has run past the visible
/// window.
pub open spec fn advance_cmds(st: DisplayModel) -> Seq<LcdCommand> {
    (if st.move_forward {
        seq![LcdCommand::SetPosition { col: st.col, row: st.row }]
    } else {
        Seq::empty()
    }) + (if sat_inc(st.col) > 16 {
        seq![LcdCommand::ScrollLeft { count: 1 }]
    } else {
        Seq::empty()
    })
}

/// The state after one cursor advance: column and row both saturate upward;
/// the scroll does not reset the column.
pub open spec fn advance_state(st: DisplayModel) -> DisplayModel {
    DisplayModel {
        row: sat_inc(st.row),
        col: sat_inc(st.col),
        move_forward: st.move_forward,
        sym_index: st.sym_index,
        is_static: st.is_static,
    }
}

/// Rendering one matched symbol: program the current slot, advance, write
/// the slot index as a character code, then move to the next slot.
pub open spec fn symbol_unit(st: DisplayModel, pattern: [u8; 8]) -> (Seq<LcdCommand>, DisplayModel) {
    let after = advance_state(st);
    (
        seq![LcdCommand::SetGlyph { slot: st.sym_index, pattern }] + advance_cmds(st)
            + seq![LcdCommand::Write { code: st.sym_index }],
        DisplayModel {
            row: after.row,
            col: after.col,
            move_forward: after.move_forward,
            sym_index: next_slot(st.sym_index),
            is_static: after.is_static,
        },
    )
}

/// Rendering one literal character: advance, then write its code byte.
pub open spec fn literal_unit(st: DisplayModel, c: char) -> (Seq<LcdCommand>, DisplayModel) {
    (advance_cmds(st) + seq![LcdCommand::Write { code: c as u8 }], advance_state(st))
}

/// Rendering a run of literal characters, one unit each.
pub open spec fn literal_run(st: DisplayModel, cs: Seq<char>) -> (Seq<LcdCommand>, DisplayModel)
    decreases cs.len(),
{
    if cs.len() == 0 {
        (Seq::empty(), st)
    } else {
        let first = literal_unit(st, cs[0]);
        let rest = literal_run(first.1, cs.drop_first());
        (first.0 + rest.0, rest.1)
    }
}

/// Rendering one segment of the message: a known token renders as its
/// symbol, any other segment as its literal characters.
pub open spec fn segment_units(
    tbl: Map<Seq<u8>, [u8; 8]>,
    st: DisplayModel,
    seg: Seq<char>,
) -> (Seq<LcdCommand>, DisplayModel) {
    if tbl.contains_key(encode_utf8(seg)) {
        symbol_unit(st, tbl[encode_utf8(seg)])
    } else {
        literal_run(st, seg)
    }
}

/// Rendering a list of segments in order.
pub open spec fn render_segments(
    tbl: Map<Seq<u8>, [u8; 8]>,
    st: DisplayModel,
    segs: Seq<Seq<char>>,
) -> (Seq<LcdCommand>, DisplayModel)
    decreases segs.len(),
{
    if segs.len() == 0 {
        (Seq::empty(), st)
    } else {
        let first = segment_units(tbl, st, segs[0]);
        let rest = render_segments(tbl, first.1, segs.drop_first());
        (first.0 + rest.0, rest.1)
    }
}

/// The segments of a message: the pieces between the `:` delimiters, the
/// delimiters themselves consumed.
pub open spec fn split_colon(s: Seq<char>) -> Seq<Seq<char>>
    decreases s.len(),
    via split_colon_decreases
{
    match s.index_of_first(':') {
        Some(i) => seq![s.subrange(0, i)] + split_colon(s.skip(i + 1)),
        None => seq![s],
    }
}

#[via_fn]
proof fn split_colon_decreases(s: Seq<char>) {
    s.index_of_first_ensures(':');
}

/// The whole rendering of one print call.
pub open spec fn render_message(
    tbl: Map<Seq<u8>, [u8; 8]>,
    st: DisplayModel,
    msg: Seq<char>,
) -> (Seq<LcdCommand>, DisplayModel) {
    render_segments(tbl, st, split_colon(msg))
}

/// The state a print call starts from: forward tracking on and the column
/// set to the requested start.
pub open spec fn start_model(st: DisplayModel, position: u8) -> DisplayModel {
    DisplayModel {
        row: st.row,
        col: position,
        move_forward: true,
        sym_index: st.sym_index,
        is_static: st.is_static,
    }
}

proof fn lemma_literal_run_snoc(st: DisplayModel, cs: Seq<char>, c: char)
    ensures
        literal_run(st, cs.push(c)).0 == literal_run(st, cs).0 + literal_unit(
            literal_run(st, cs).1,
            c,
        ).0,
        literal_run(st, cs.push(c)).1 == literal_unit(literal_run(st, cs).1, c).1,
    decreases cs.len(),
{
    reveal_with_fuel(literal_run, 3);
    if cs.len() == 0 {
        assert(cs.push(c).drop_first() =~= cs);
        assert(cs.push(c)[0] == c);
        assert(literal_run(st, cs.push(c)).0 =~= literal_run(st, cs).0 + literal_unit(
            literal_run(st, cs).1,
            c,
        ).0);
    } else {
        assert(cs.push(c).drop_first() =~= cs.drop_first().push(c));
        lemma_literal_run_snoc(literal_unit(st, cs[0]).1, cs.drop_first(), c);
        assert(literal_run(st, cs.push(c)).1 == literal_unit(literal_run(st, cs).1, c).1);
        assert(literal_run(st, cs.push(c)).0 =~= literal_run(st, cs).0 + literal_unit(
            literal_run(st, cs).1,
            c,
        ).0);
    }
}

proof fn lemma_render_segments_snoc(
    tbl: Map<Seq<u8>, [u8; 8]>,
    st: DisplayModel,
    segs: Seq<Seq<char>>,
    seg: Seq<char>,
)
    ensures
        render_segments(tbl, st, segs.push(seg)).0 == render_segments(tbl, st, segs).0
            + segment_units(tbl, render_segments(tbl, st, segs).1, seg).0,
        render_segments(tbl, st, segs.push(seg)).1 == segment_units(
            tbl,
            render_segments(tbl, st, segs).1,
            seg,
        ).1,
    decreases segs.len(),
{
    reveal_with_fuel(render_segments, 3);
    if segs.len() == 0 {
        assert(segs.push(seg).drop_first() =~= segs);
        assert(segs.push(seg)[0] == seg);
        assert(render_segments(tbl, st, segs.push(seg)).0 =~= render_segments(tbl, st, segs).0
            + segment_units(tbl, render_segments(tbl, st, segs).1, seg).0);
    } else {
        assert(segs.push(seg).drop_first() =~= segs.drop_first().push(seg));
        lemma_render_segments_snoc(tbl, segment_units(tbl, st, segs[0]).1, segs.drop_first(), seg);
        assert(render_segments(tbl, st, segs.push(seg)).1 == segment_units(
            tbl,
            render_segments(tbl, st, segs).1,
            seg,
        ).1);
        assert(render_segments(tbl, st, segs.push(seg)).0 =~= render_segments(tbl, st, segs).0
            + segment_units(tbl, render_segments(tbl, st, segs).1, seg).0);
    }
}

proof fn lemma_split_at_first_colon(s: Seq<char>, p: int)
    requires
        0 <= p < s.len(),
        s[p] == ':',
        forall|q: int| 0 <= q < p ==> s[q] != ':',
    ensures
        split_colon(s) == seq![s.subrange(0, p)] + split_colon(s.skip(p + 1)),
{
    s.index_of_first_ensures(':');
    assert(s.contains(':')) by {
        assert(s[p] == ':');
    }
    let i = s.index_of_first(':').unwrap();
    assert(s[i] == ':');
    assert(i >= p);
    assert(i <= p);
}

proof fn lemma_split_no_colon(s: Seq<char>)
    requires
        forall|q: int| 0 <= q < s.len() ==> s[q] != ':',
    ensures
        split_colon(s) == seq![s],
{
    s.index_of_first_ensures(':');
    if s.contains(':') {
        let i = choose|i: int| 0 <= i < s.len() && s[i] == ':';
        assert(false);
    }
}

/// How many scroll commands a command sequence holds.
pub open spec fn scroll_count(cmds: Seq<LcdCommand>) -> nat
    decreases cmds.len(),
{
    if cmds.len() == 0 {
        0
    } else {
        (if cmds[0] is ScrollLeft {
            1nat
        } else {
            0nat
        }) + scroll_count(cmds.drop_first())
    }
}

proof fn lemma_scroll_count_add(a: Seq<LcdCommand>, b: Seq<LcdCommand>)
    ensures
        scroll_count(a + b) == scroll_count(a) + scroll_count(b),
    decreases a.len(),
{
    reveal_with_fuel(scroll_count, 2);
    if a.len() == 0 {
        assert(a + b =~= b);
    } else {
        assert((a + b).drop_first() =~= a.drop_first() + b);
        assert((a + b)[0] == a[0]);
        lemma_scroll_count_add(a.drop_first(), b);
    }
}

proof fn lemma_scroll_count_single(cmd: LcdCommand)
    ensures
        scroll_count(seq![cmd]) == (if cmd is ScrollLeft {
            1nat
        } else {
            0nat
        }),
{
    reveal_with_fuel(scroll_count, 2);
    assert(seq![cmd].drop_first() =~= Seq::<LcdCommand>::empty());
}

/// Law: one rendered unit, of either kind, moves the column up by exactly
/// one (saturating at the byte range) and issues exactly one scroll-left
/// command precisely when the new column lies past the 16-column window;
/// the scroll never resets the column itself.
pub proof fn lemma_column_wrap(st: DisplayModel, c: char, pattern: [u8; 8])
    ensures
        literal_unit(st, c).1.col == sat_inc(st.col),
        symbol_unit(st, pattern).1.col == sat_inc(st.col),
        scroll_count(literal_unit(st, c).0) == (if sat_inc(st.col) > 16 {
            1nat
        } else {
            0nat
        }),
        scroll_count(symbol_unit(st, pattern).0) == (if sat_inc(st.col) > 16 {
            1nat
        } else {
            0nat
        }),
{
    reveal_with_fuel(scroll_count, 2);
    let fwd: Seq<LcdCommand> = if st.move_forward {
        seq![LcdCommand::SetPosition { col: st.col, row: st.row }]
    } else {
        Seq::empty()
    };
    let scr: Seq<LcdCommand> = if sat_inc(st.col) > 16 {
        seq![LcdCommand::ScrollLeft { count: 1 }]
    } else {
        Seq::empty()
    };
    if st.move_forward {
        lemma_scroll_count_single(LcdCommand::SetPosition { col: st.col, row: st.row });
    }
    if sat_inc(st.col) > 16 {
        lemma_scroll_count_single(LcdCommand::ScrollLeft { count: 1 });
    }
    lemma_scroll_count_add(fwd, scr);
    lemma_scroll_count_add(advance_cmds(st), seq![LcdCommand::Write { code: c as u8 }]);
    lemma_scroll_count_single(LcdCommand::Write { code: c as u8 });
    lemma_scroll_count_single(LcdCommand::SetGlyph { slot: st.sym_index, pattern });
    lemma_scroll_count_add(
        seq![LcdCommand::SetGlyph { slot: st.sym_index, pattern }],
        advance_cmds(st),
    );
    lemma_scroll_count_add(
        seq![LcdCommand::SetGlyph { slot: st.sym_index, pattern }] + advance_cmds(st),
        seq![LcdCommand::Write { code: st.sym_index }],
    );
    lemma_scroll_count_single(LcdCommand::Write { code: st.sym_index });
}

/// Every segment of the run names a token the table knows.
pub open spec fn all_symbol_segments(tbl: Map<Seq<u8>, [u8; 8]>, segs: Seq<Seq<char>>) -> bool {
    forall|i: int| 0 <= i < segs.len() ==> tbl.contains_key(encode_utf8(#[trigger] segs[i]))
}

/// The slots that a command sequence programs glyphs into, in order.
pub open spec fn glyph_slots(cmds: Seq<LcdCommand>) -> Seq<u8>
    decreases cmds.len(),
{
    if cmds.len() == 0 {
        Seq::empty()
    } else {
        (match cmds[0] {
            LcdCommand::SetGlyph { slot, .. } => seq![slot],
            _ => Seq::empty(),
        }) + glyph_slots(cmds.drop_first())
    }
}

/// The slots a run of symbols is programmed into: round-robin over the
/// eight hardware slots, starting wherever the writer stood.
pub open spec fn slot_sequence(start: u8, n: nat) -> Seq<u8> {
    Seq::new(n, |i: int| (((start + i) % 8) as u8))
}

proof fn lemma_glyph_slots_add(a: Seq<LcdCommand>, b: Seq<LcdCommand>)
    ensures
        glyph_slots(a + b) == glyph_slots(a) + glyph_slots(b),
    decreases a.len(),
{
    reveal_with_fuel(glyph_slots, 2);
    if a.len() == 0 {
        assert(a + b =~= b);
        assert(glyph_slots(a) + glyph_slots(b) =~= glyph_slots(b));
    } else {
        assert((a + b).drop_first() =~= a.drop_first() + b);
        assert((a + b)[0] == a[0]);
        lemma_glyph_slots_add(a.drop_first(), b);
        assert(glyph_slots(a + b) =~= glyph_slots(a) + glyph_slots(b));
    }
}

proof fn lemma_glyph_slots_single(cmd: LcdCommand)
    ensures
        glyph_slots(seq![cmd]) == (match cmd {
            LcdCommand::SetGlyph { slot, .. } => seq![slot],
            _ => Seq::empty(),
        }),
{
    reveal_with_fuel(glyph_slots, 2);
    assert(seq![cmd].drop_first() =~= Seq::<LcdCommand>::empty());
    assert(glyph_slots(seq![cmd]) =~= (match cmd {
        LcdCommand::SetGlyph { slot, .. } => seq![slot],
        _ => Seq::<u8>::empty(),
    }));
}

proof fn lemma_glyph_slots_symbol_unit(st: DisplayModel, pattern: [u8; 8])
    ensures
        glyph_slots(symbol_unit(st, pattern).0) == seq![st.sym_index],
{
    let fwd: Seq<LcdCommand> = if st.move_forward {
        seq![LcdCommand::SetPosition { col: st.col, row: st.row }]
    } else {
        Seq::empty()
    };
    let scr: Seq<LcdCommand> = if sat_inc(st.col) > 16 {
        seq![LcdCommand::ScrollLeft { count: 1 }]
    } else {
        Seq::empty()
    };
    if st.move_forward {
        lemma_glyph_slots_single(LcdCommand::SetPosition { col: st.col, row: st.row });
    }
    if sat_inc(st.col) > 16 {
        lemma_glyph_slots_single(LcdCommand::ScrollLeft { count: 1 });
    }
    lemma_glyph_slots_add(fwd, scr);
    lemma_glyph_slots_single(LcdCommand::SetGlyph { slot: st.sym_index, pattern });
    lemma_glyph_slots_add(
        seq![LcdCommand::SetGlyph { slot: st.sym_index, pattern }],
        advance_cmds(st),
    );
    lemma_glyph_slots_add(
        seq![LcdCommand::SetGlyph { slot: st.sym_index, pattern }] + advance_cmds(st),
        seq![LcdCommand::Write { code: st.sym_index }],
    );
    lemma_glyph_slots_single(LcdCommand::Write { code: st.sym_index });
    assert(glyph_slots(symbol_unit(st, pattern).0) =~= seq![st.sym_index]);
}

/// Law: printing a run of known symbols programs the controller's eight
/// glyph slots round-robin: the i-th symbol of the run lands in slot
/// (start + i) mod 8. In particular a ninth symbol reuses the slot of the
/// first, overwriting its programmed pattern.
pub proof fn lemma_slot_wraparound(
    tbl: Map<Seq<u8>, [u8; 8]>,
    st: DisplayModel,
    segs: Seq<Seq<char>>,
)
    requires
        st.sym_index < 8,
        all_symbol_segments(tbl, segs),
    ensures
        render_segments(tbl, st, segs).1.sym_index == (st.sym_index + segs.len()) % 8,
        glyph_slots(render_segments(tbl, st, segs).0) == slot_sequence(st.sym_index, segs.len()),
        segs.len() > 8 ==> glyph_slots(render_segments(tbl, st, segs).0)[8] == glyph_slots(
            render_segments(tbl, st, segs).0,
        )[0],
    decreases segs.len(),
{
    if segs.len() == 0 {
        assert(glyph_slots(render_segments(tbl, st, segs).0) =~= slot_sequence(
            st.sym_index,
            segs.len(),
        ));
    } else {
        assert(tbl.contains_key(encode_utf8(segs[0])));
        let pattern = tbl[encode_utf8(segs[0])];
        let first = segment_units(tbl, st, segs[0]);
        let next = next_slot(st.sym_index);
        lemma_glyph_slots_symbol_unit(st, pattern);
        assert(all_symbol_segments(tbl, segs.drop_first())) by {
            assert forall|i: int| 0 <= i < segs.drop_first().len() implies tbl.contains_key(
                encode_utf8(#[trigger] segs.drop_first()[i]),
            ) by {
                assert(segs.drop_first()[i] == segs[i + 1]);
            }
        }
        lemma_slot_wraparound(tbl, first.1, segs.drop_first());
        lemma_glyph_slots_add(first.0, render_segments(tbl, first.1, segs.drop_first()).0);
        if st.sym_index >= 7 {
            lemma_mod_multiples_vanish(1, 0, 8);
        }
        assert forall|i: int| 0 <= i < segs.len() implies slot_sequence(st.sym_index, segs.len())[i]
            == (seq![st.sym_index] + slot_sequence(next, (segs.len() - 1) as nat))[i] by {
            if i > 0 {
                if st.sym_index >= 7 {
                    lemma_mod_multiples_vanish(1, i - 1, 8);
                    assert((st.sym_index + i) % 8 == (next + (i - 1)) % 8);
                }
            }
        }
        assert(slot_sequence(st.sym_index, segs.len()) =~= seq![st.sym_index] + slot_sequence(
            next,
            (segs.len() - 1) as nat,
        ));
        if st.sym_index >= 7 {
            lemma_mod_multiples_vanish(1, segs.len() - 1, 8);
        }
        assert(render_segments(tbl, st, segs).1.sym_index == (st.sym_index + segs.len()) % 8);
        if segs.len() > 8 {
            lemma_mod_multiples_vanish(1, st.sym_index as int, 8);
            assert(slot_sequence(st.sym_index, segs.len())[8] == slot_sequence(
                st.sym_index,
                segs.len(),
            )[0]);
        }
    }
}

/// The writer: the symbol table plus the cursor, tracking and slot state it
/// keeps between print calls.
pub struct ExtendedLcdWriter {
    symbol_map: CharBitMap,
    row: u8,
    col: u8,
    move_forward: bool,
    sym_index: u8,
    is_static: bool,
}

impl ExtendedLcdWriter {
    /// The cursor and slot state as the contracts speak of it.
    pub closed spec fn model(&self) -> DisplayModel {
        DisplayModel {
            row: self.row,
            col: self.col,
            move_forward: self.move_forward,
            sym_index: self.sym_index,
            is_static: self.is_static,
        }
    }

    /// The token table the writer resolves against.
    pub closed spec fn table(&self) -> Map<Seq<u8>, [u8; 8]> {
        self.symbol_map.entries()
    }

    /// The slot index always stays inside the controller's eight slots.
    pub closed spec fn wf(&self) -> bool {
        self.sym_index < 8
    }

    /// A fresh writer over a loaded symbol table.
    pub fn new(symbol_map: CharBitMap) -> (r: Self)
        ensures
            r.wf(),
            r.table() == symbol_map.entries(),
            r.model() == (DisplayModel {
                row: 0,
                col: 0,
                move_forward: true,
                sym_index: 0,
                is_static: false,
            }),
    {
        ExtendedLcdWriter {
            symbol_map,
            row: 0,
            col: 0,
            move_forward: true,
            sym_index: 0,
            is_static: false,
        }
    }

    /// One cursor advance before a write, exactly as `advance_cmds` and
    /// `advance_state` state it.
    fn update_position(&mut self, cmds: &mut Vec<LcdCommand>)
        ensures
            final(self).model() == advance_state(old(self).model()),
            final(self).symbol_map == old(self).symbol_map,
            final(cmds)@ == old(cmds)@ + advance_cmds(old(self).model()),
    {
        let ghost st0 = self.model();
        let ghost cmds0 = cmds@;
        if self.move_forward {
            cmds.push(LcdCommand::SetPosition { col: self.col, row: self.row });
        }
        self.col = if self.col == 255 {
            255
        } else {
            self.col + 1
        };
        if self.col > 16 {
            cmds.push(LcdCommand::ScrollLeft { count: 1 });
        }
        self.row = if self.row == 255 {
            255
        } else {
            self.row + 1
        };
        proof {
            assert(cmds@ =~= cmds0 + advance_cmds(st0));
        }
    }

    /// Renders one delimiter-free segment: a symbol if the table knows it,
    /// its literal characters otherwise.
    fn render_segment(&mut self, cmds: &mut Vec<LcdCommand>, segment: &str)
        requires
            old(self).wf(),
        ensures
            final(self).wf(),
            final(self).symbol_map == old(self).symbol_map,
            final(cmds)@ == old(cmds)@ + segment_units(
                old(self).table(),
                old(self).model(),
                segment@,
            ).0,
            final(self).model() == segment_units(old(self).table(), old(self).model(), segment@).1,
    {
        let ghost st0 = self.model();
        let ghost tbl = self.table();
        let ghost cmds0 = cmds@;
        let found: Option<[u8; 8]> = match self.symbol_map.get(segment) {
            Some(p) => Some(*p),
            None => None,
        };
        match found {
            Some(pixels) => {
                cmds.push(LcdCommand::SetGlyph { slot: self.sym_index, pattern: pixels });
                self.update_position(cmds);
                cmds.push(LcdCommand::Write { code: self.sym_index });
                self.sym_index = self.sym_index + 1;
                if self.sym_index > 7 {
                    self.sym_index = 0;
                }
                proof {
                    assert(cmds@ =~= cmds0 + segment_units(tbl, st0, segment@).0);
                }
            },
            None => {
                let seglen = segment.unicode_len();
                let mut j: usize = 0;
                while j < seglen
                    invariant
                        j <= seglen,
                        seglen == segment@.len(),
                        self.wf(),
                        self.symbol_map == old(self).symbol_map,
                        cmds@ == cmds0 + literal_run(st0, segment@.take(j as int)).0,
                        self.model() == literal_run(st0, segment@.take(j as int)).1,
                    decreases seglen - j,
                {
                    let c = segment.get_char(j);
                    let ghost prefix = segment@.take(j as int);
                    self.update_position(cmds);
                    let code: u8 = #[verifier::truncate] (c as u8);
                    cmds.push(LcdCommand::Write { code });
                    proof {
                        lemma_literal_run_snoc(st0, prefix, c);
                        assert(segment@.take(j + 1) =~= prefix.push(c));
                        assert(cmds@ =~= cmds0 + literal_run(st0, segment@.take(j + 1)).0);
                    }
                    j += 1;
                }
                proof {
                    assert(segment@.take(seglen as int) =~= segment@);
                }
            },
        }
    }

    /// Resolves the message against the table and renders it from the given
    /// start column, exactly as `render_message` states it.
    pub fn print_at(&mut self, message: &str, position: u8) -> (cmds: Vec<LcdCommand>)
        requires
            old(self).wf(),
        ensures
            final(self).wf(),
            final(self).table() == old(self).table(),
            cmds@ == render_message(
                old(self).table(),
                start_model(old(self).model(), position),
                message@,
            ).0,
            final(self).model() == render_message(
                old(self).table(),
                start_model(old(self).model(), position),
                message@,
            ).1,
    {
        self.move_forward = true;
        self.col = position;
        let ghost st0 = self.model();
        let ghost tbl = self.table();
        let ghost msg = message@;
        let mut cmds: Vec<LcdCommand> = Vec::new();
        let len = message.unicode_len();
        let mut seg_start: usize = 0;
        let mut i: usize = 0;
        let ghost mut segs_done: Seq<Seq<char>> = Seq::empty();
        proof {
            assert(msg.skip(0) =~= msg);
            assert(segs_done + split_colon(msg) =~= split_colon(msg));
        }
        while i < len
            invariant
                seg_start <= i <= len,
                len == msg.len(),
                msg == message@,
                self.wf(),
                self.symbol_map == old(self).symbol_map,
                tbl == old(self).table(),
                forall|q: int| seg_start <= q < i ==> msg[q] != ':',
                split_colon(msg) == segs_done + split_colon(msg.skip(seg_start as int)),
                cmds@ == render_segments(tbl, st0, segs_done).0,
                self.model() == render_segments(tbl, st0, segs_done).1,
            decreases len - i,
        {
            let c = message.get_char(i);
            if c == ':' {
                let seg = message.substring_char(seg_start, i);
                proof {
                    lemma_split_at_first_colon(msg.skip(seg_start as int), i - seg_start);
                    assert(msg.skip(seg_start as int).subrange(0, i - seg_start) =~= msg.subrange(
                        seg_start as int,
                        i as int,
                    ));
                    assert(msg.skip(seg_start as int).skip(i - seg_start + 1) =~= msg.skip(
                        i + 1,
                    ));
                    lemma_render_segments_snoc(tbl, st0, segs_done, seg@);
                }
                self.render_segment(&mut cmds, seg);
                proof {
                    assert(segs_done + (seq![msg.subrange(seg_start as int, i as int)]
                        + split_colon(msg.skip(i + 1))) =~= segs_done.push(seg@) + split_colon(
                        msg.skip(i + 1),
                    ));
                    segs_done = segs_done.push(seg@);
                }
                seg_start = i + 1;
            }
            i += 1;
        }
        let seg = message.substring_char(seg_start, len);
        proof {
            lemma_split_no_colon(msg.skip(seg_start as int));
            assert(msg.skip(seg_start as int).subrange(0, len - seg_start) =~= msg.skip(
                seg_start as int,
            ));
            assert(seg@ =~= msg.skip(seg_start as int));
            lemma_render_segments_snoc(tbl, st0, segs_done, seg@);
            assert(segs_done + seq![msg.skip(seg_start as int)] =~= segs_done.push(seg@));
        }
        self.render_segment(&mut cmds, seg);
        proof {
            assert(split_colon(msg) == segs_done.push(seg@));
        }
        cmds
    }

    /// Renders the message from wherever the column currently stands.
    pub fn print(&mut self, message: &str) -> (cmds: Vec<LcdCommand>)
        requires
            old(self).wf(),
        ensures
            final(self).wf(),
            final(self).table() == old(self).table(),
            cmds@ == render_message(
                old(self).table(),
                start_model(old(self).model(), old(self).model().col),
                message@,
            ).0,
            final(self).model() == render_message(
                old(self).table(),
                start_model(old(self).model(), old(self).model().col),
                message@,
            ).1,
    {
        let col = self.col;
        self.print_at(message, col)
    }

    /// Clears the display and puts the column back to the start.
    pub fn home(&mut self) -> (cmds: Vec<LcdCommand>)
        ensures
            final(self).wf() == old(self).wf(),
            final(self).table() == old(self).table(),
            cmds@ == seq![LcdCommand::Clear, LcdCommand::Home],
            final(self).model() == (DisplayModel {
                col: 0,
                ..old(self).model()
            }),
    {
        self.col = 0;
        let mut cmds: Vec<LcdCommand> = Vec::new();
        cmds.push(LcdCommand::Clear);
        cmds.push(LcdCommand::Home);
        proof {
            assert(cmds@ =~= seq![LcdCommand::Clear, LcdCommand::Home]);
        }
        cmds
    }

    /// Clears the display, parks the cursor at the origin and marks the
    /// writer as a fixed-position overlay.
    pub fn set_static(&mut self) -> (cmds: Vec<LcdCommand>)
        ensures
            final(self).wf() == old(self).wf(),
            final(self).table() == old(self).table(),
            cmds@ == seq![LcdCommand::Clear, LcdCommand::SetPosition { col: 0, row: 0 }],
            final(self).model() == (DisplayModel {
                is_static: true,
                ..old(self).model()
            }),
    {
        self.is_static = true;
        let mut cmds: Vec<LcdCommand> = Vec::new();
        cmds.push(LcdCommand::Clear);
        cmds.push(LcdCommand::SetPosition { col: 0, row: 0 });
        proof {
            assert(cmds@ =~= seq![LcdCommand::Clear, LcdCommand::SetPosition { col: 0, row: 0 }]);
        }
        cmds
    }

    /// The current column, as the writer tracks it.
    pub fn column(&self) -> (r: u8)
        ensures
            r == self.model().col,
    {
        self.col
    }

    /// The glyph slot the next symbol will be programmed into.
    pub fn slot_index(&self) -> (r: u8)
        ensures
            r == self.model().sym_index,
    {
        self.sym_index
    }
}

} // verus!
