use hedu::source::{DataSource, DumpError};
use hedu::{mask_chars, Hedu, MemSource};

#[test]
fn mask_chars_handles_the_documented_glyphs() {
    assert_eq!(mask_chars('\n'), '↩');
    assert_eq!(mask_chars(' '), '␣');
    assert_eq!(mask_chars('\t'), '⭾');
    assert_eq!(mask_chars('\u{1}'), '�');
    assert_eq!(mask_chars('A'), 'A');
    assert_eq!(mask_chars('~'), '~');
    assert_eq!(mask_chars('!'), '!');
    assert_eq!(mask_chars('\u{7f}'), '�');
}

#[test]
fn hex_digits_render_uppercase() {
    assert_eq!(hedu::render::hex_digit(0), '0');
    assert_eq!(hedu::render::hex_digit(9), '9');
    assert_eq!(hedu::render::hex_digit(10), 'A');
    assert_eq!(hedu::render::hex_digit(15), 'F');
}

#[test]
fn sep_emits_59_rule_glyphs_without_char_column() {
    let mut engine = Hedu::new(false, 0, false, 0);
    engine.sep();
    assert_eq!(engine.out.len(), 1);
    assert_eq!(engine.out[0].chars().count(), 59);
    assert!(engine.out[0].chars().all(|c| c == '─'));
}

#[test]
fn sep_emits_80_rule_glyphs_with_char_column() {
    let mut engine = Hedu::new(true, 0, false, 0);
    engine.sep();
    assert_eq!(engine.out[0].chars().count(), 80);
    assert!(engine.out[0].chars().all(|c| c == '─'));
}

#[test]
fn newline_emits_a_line_break_row() {
    let mut engine = Hedu::new(false, 0, false, 0);
    engine.newline();
    assert_eq!(engine.out, vec!["\n".to_string()]);
}

#[test]
fn display_moves_the_pending_row_out() {
    let mut engine = Hedu::new(false, 0, false, 0);
    engine.display_buf = "pending row".to_string();
    engine.display();
    assert_eq!(engine.out, vec!["pending row".to_string()]);
    assert!(engine.display_buf.is_empty());
}

#[test]
fn adjust_counters_adds_the_row_length_to_both_counters() {
    let mut engine = Hedu::new(false, 0, false, 0);
    engine.len = 5;
    engine.rd_counter = 7;
    engine.data_idx = 11;
    engine.adjust_counters();
    assert_eq!(engine.rd_counter, 12);
    assert_eq!(engine.data_idx, 16);
}

#[test]
fn dump_a_line_renders_the_active_buffer() {
    let mut engine = Hedu::new(false, 0, false, 0);
    engine.len = 0;
    engine.data_idx = 0x20;
    engine.dump_a_line();
    assert_eq!(engine.out, vec![
        "00000020 │                                                  ".to_string(),
    ]);
}

#[test]
fn mem_source_reads_in_row_sized_chunks() {
    let mut src = MemSource::new((0u8..20).collect(), true);
    let first = src.read(16).unwrap();
    assert_eq!(first, (0u8..16).collect::<Vec<u8>>());
    let second = src.read(16).unwrap();
    assert_eq!(second, (16u8..20).collect::<Vec<u8>>());
    let third = src.read(16).unwrap();
    assert!(third.is_empty());
}

#[test]
fn mem_source_skip_is_a_seek_when_seekable() {
    let mut src = MemSource::new((0u8..20).collect(), true);
    assert_eq!(src.skip(4), Ok(true));
    assert_eq!(src.read(16).unwrap(), (4u8..20).collect::<Vec<u8>>());
}

#[test]
fn mem_source_skip_is_a_no_op_when_not_seekable() {
    let mut src = MemSource::new((0u8..20).collect(), false);
    assert_eq!(src.skip(4), Ok(false));
    assert_eq!(src.read(4).unwrap(), (0u8..4).collect::<Vec<u8>>());
}

struct FailingSource;

impl DataSource for FailingSource {
    fn read(&mut self, _max: usize) -> Result<Vec<u8>, DumpError> {
        Err(DumpError::Read)
    }

    fn skip(&mut self, _length: usize) -> Result<bool, DumpError> {
        Err(DumpError::Skip)
    }
}

#[test]
fn read_failure_aborts_the_dump() {
    let mut engine = Hedu::new(false, 0, false, 0);
    let r = engine.dump(&mut FailingSource);
    assert_eq!(r, Err(DumpError::Read));
    // the title and the separator were already emitted
    assert_eq!(engine.out.len(), 2);
}

#[test]
fn skip_failure_aborts_the_dump() {
    let mut engine = Hedu::new(false, 4, false, 0);
    let r = engine.dump(&mut FailingSource);
    assert_eq!(r, Err(DumpError::Skip));
    assert!(engine.out.is_empty());
}
