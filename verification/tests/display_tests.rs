use esp32::codec::{compile, SymbolEntry};
use esp32::display::{ExtendedLcdWriter, LcdCommand};
use esp32::symbols::{load_table, CharBitMap};

fn glyph(seed: u8) -> [u8; 8] {
    let mut g = [0u8; 8];
    let mut i = 0;
    while i < 8 {
        g[i] = seed.wrapping_add(i as u8) & 0x1f;
        i += 1;
    }
    g
}

fn table_of(tokens: &[&str]) -> CharBitMap {
    let mut entries = Vec::new();
    for (i, t) in tokens.iter().enumerate() {
        entries.push(SymbolEntry { token: t.as_bytes().to_vec(), glyph: glyph(i as u8) });
    }
    let blob = compile(&entries).unwrap();
    load_table(&blob).unwrap()
}

fn set_positions(cmds: &[LcdCommand]) -> usize {
    cmds.iter().filter(|c| matches!(c, LcdCommand::SetPosition { .. })).count()
}

fn scrolls(cmds: &[LcdCommand]) -> usize {
    cmds.iter().filter(|c| matches!(c, LcdCommand::ScrollLeft { .. })).count()
}

fn glyph_loads(cmds: &[LcdCommand]) -> Vec<u8> {
    cmds.iter()
        .filter_map(|c| match c {
            LcdCommand::SetGlyph { slot, .. } => Some(*slot),
            _ => None,
        })
        .collect()
}

fn written(cmds: &[LcdCommand]) -> Vec<u8> {
    cmds.iter()
        .filter_map(|c| match c {
            LcdCommand::Write { code } => Some(*code),
            _ => None,
        })
        .collect()
}

#[test]
fn tokenization_renders_literal_symbol_literal() {
    let mut writer = ExtendedLcdWriter::new(table_of(&["heart"]));
    let cmds = writer.print_at("A:heart:B", 0);
    let expected = vec![
        LcdCommand::SetPosition { col: 0, row: 0 },
        LcdCommand::Write { code: b'A' },
        LcdCommand::SetGlyph { slot: 0, pattern: glyph(0) },
        LcdCommand::SetPosition { col: 1, row: 1 },
        LcdCommand::Write { code: 0 },
        LcdCommand::SetPosition { col: 2, row: 2 },
        LcdCommand::Write { code: b'B' },
    ];
    assert_eq!(cmds, expected);
    // one cursor advance per rendered unit: literal, symbol, literal
    assert_eq!(set_positions(&cmds), 3);
}

#[test]
fn unknown_token_renders_as_literal_text() {
    let mut writer = ExtendedLcdWriter::new(table_of(&["heart"]));
    let cmds = writer.print_at(":nope:", 0);
    // the delimiters are consumed, never rendered; the segment renders as text
    assert_eq!(written(&cmds), vec![b'n', b'o', b'p', b'e']);
    assert_eq!(glyph_loads(&cmds), Vec::<u8>::new());
    assert_eq!(set_positions(&cmds), 4);
}

#[test]
fn known_token_renders_as_symbol() {
    let mut writer = ExtendedLcdWriter::new(table_of(&["heart"]));
    let cmds = writer.print_at(":heart:", 0);
    assert_eq!(glyph_loads(&cmds), vec![0]);
    // the slot index is written as the character code
    assert_eq!(written(&cmds), vec![0]);
}

#[test]
fn column_wrap_scrolls_once_and_keeps_column() {
    let mut writer = ExtendedLcdWriter::new(table_of(&[]));
    let cmds = writer.print_at("ab", 15);
    // first unit writes at column 15, the second pushes the column past 16
    assert_eq!(scrolls(&cmds), 1);
    assert_eq!(writer.column(), 17);
    let after: Vec<LcdCommand> = cmds;
    assert_eq!(
        after,
        vec![
            LcdCommand::SetPosition { col: 15, row: 0 },
            LcdCommand::Write { code: b'a' },
            LcdCommand::SetPosition { col: 16, row: 1 },
            LcdCommand::ScrollLeft { count: 1 },
            LcdCommand::Write { code: b'b' },
        ],
    );
}

#[test]
fn column_saturates_at_byte_range() {
    let mut writer = ExtendedLcdWriter::new(table_of(&[]));
    let _ = writer.print_at("x", 255);
    assert_eq!(writer.column(), 255);
}

#[test]
fn slot_wraparound_reuses_first_slot_for_ninth_symbol() {
    let tokens = ["s0", "s1", "s2", "s3", "s4", "s5", "s6", "s7", "s8"];
    let mut writer = ExtendedLcdWriter::new(table_of(&tokens));
    let cmds = writer.print_at(":s0:s1:s2:s3:s4:s5:s6:s7:s8:", 0);
    // nine distinct symbols in sequence: the ninth lands back in slot 0,
    // overwriting what the first programmed there
    assert_eq!(glyph_loads(&cmds), vec![0, 1, 2, 3, 4, 5, 6, 7, 0]);
    assert_eq!(writer.slot_index(), 1);
}

#[test]
fn print_continues_at_current_column() {
    let mut writer = ExtendedLcdWriter::new(table_of(&[]));
    let _ = writer.print("AB");
    assert_eq!(writer.column(), 2);
    let cmds = writer.print("C");
    assert_eq!(cmds[0], LcdCommand::SetPosition { col: 2, row: 2 });
    assert_eq!(writer.column(), 3);
}

#[test]
fn home_clears_and_resets_column() {
    let mut writer = ExtendedLcdWriter::new(table_of(&[]));
    let _ = writer.print_at("abc", 5);
    let cmds = writer.home();
    assert_eq!(cmds, vec![LcdCommand::Clear, LcdCommand::Home]);
    assert_eq!(writer.column(), 0);
}

#[test]
fn set_static_clears_and_parks_at_origin() {
    let mut writer = ExtendedLcdWriter::new(table_of(&[]));
    let cmds = writer.set_static();
    assert_eq!(
        cmds,
        vec![LcdCommand::Clear, LcdCommand::SetPosition { col: 0, row: 0 }],
    );
}

#[test]
fn empty_segments_render_nothing() {
    let mut writer = ExtendedLcdWriter::new(table_of(&["heart"]));
    let cmds = writer.print_at("::", 0);
    assert_eq!(cmds, Vec::<LcdCommand>::new());
}
