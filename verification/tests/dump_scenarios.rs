use hedu::{Hedu, MemSource};

fn run(bytes: Vec<u8>, can_seek: bool, chars: bool, skip: usize, show_identical: bool, limit: usize) -> Hedu {
    let mut engine = Hedu::new(chars, skip, show_identical, limit);
    let mut src = MemSource::new(bytes, can_seek);
    engine.dump(&mut src).expect("dump failed");
    engine
}

fn lines(engine: &Hedu) -> Vec<&str> {
    engine.out.iter().map(|s| s.as_str()).collect()
}

#[test]
fn empty_source_emits_one_empty_row_and_summary() {
    let engine = run(Vec::new(), true, false, 0, false, 0);
    assert_eq!(lines(&engine), vec![
        "DATA IDX │ DATA AS HEX",
        "───────────────────────────────────────────────────────────",
        "00000000 │                                                  ",
        "───────────────────────────────────────────────────────────",
        "00000000 │ read total:              0 B      (0 B)          ",
    ]);
    assert!(engine.warnings.is_empty());
}

#[test]
fn zero_filled_32_bytes_renders_two_full_rows() {
    let engine = run(vec![0u8; 32], true, false, 0, true, 0);
    assert_eq!(lines(&engine), vec![
        "DATA IDX │ DATA AS HEX",
        "───────────────────────────────────────────────────────────",
        "00000000 │ 00 00 00 00 00 00 00 00  00 00 00 00 00 00 00 00 ",
        "00000010 │ 00 00 00 00 00 00 00 00  00 00 00 00 00 00 00 00 ",
        "───────────────────────────────────────────────────────────",
        "00000020 │ read total:              32 B     (32 B)         ",
    ]);
}

#[test]
fn exactly_two_identical_rows_render_without_spurious_marker() {
    // the run ends at the stream end right after the duplicate: both rows
    // must appear, and no collapse marker
    let engine = run(vec![0u8; 32], true, false, 0, false, 0);
    assert_eq!(lines(&engine), vec![
        "DATA IDX │ DATA AS HEX",
        "───────────────────────────────────────────────────────────",
        "00000000 │ 00 00 00 00 00 00 00 00  00 00 00 00 00 00 00 00 ",
        "00000010 │ 00 00 00 00 00 00 00 00  00 00 00 00 00 00 00 00 ",
        "───────────────────────────────────────────────────────────",
        "00000020 │ read total:              32 B     (32 B)         ",
    ]);
}

#[test]
fn identical_48_bytes_collapse_to_one_marker() {
    let engine = run(vec![0u8; 48], true, false, 0, false, 0);
    assert_eq!(lines(&engine), vec![
        "DATA IDX │ DATA AS HEX",
        "───────────────────────────────────────────────────────────",
        "00000000 │ 00 00 00 00 00 00 00 00  00 00 00 00 00 00 00 00 ",
        "******** │ (repeats 1 lines)                                ",
        "00000020 │ 00 00 00 00 00 00 00 00  00 00 00 00 00 00 00 00 ",
        "───────────────────────────────────────────────────────────",
        "00000030 │ read total:              48 B     (48 B)         ",
    ]);
}

#[test]
fn identical_160_bytes_collapse_to_one_marker() {
    let engine = run(vec![0u8; 160], true, false, 0, false, 0);
    let out = lines(&engine);
    assert_eq!(out, vec![
        "DATA IDX │ DATA AS HEX",
        "───────────────────────────────────────────────────────────",
        "00000000 │ 00 00 00 00 00 00 00 00  00 00 00 00 00 00 00 00 ",
        "******** │ (repeats 8 lines)                                ",
        "00000090 │ 00 00 00 00 00 00 00 00  00 00 00 00 00 00 00 00 ",
        "───────────────────────────────────────────────────────────",
        "000000A0 │ read total:              160 B    (160 B)        ",
    ]);
    assert_eq!(out.iter().filter(|l| l.starts_with('*')).count(), 1);
}

#[test]
fn identical_run_with_short_tail_collapses_once() {
    let engine = run(vec![0xAB; 40], true, false, 0, false, 0);
    assert_eq!(lines(&engine), vec![
        "DATA IDX │ DATA AS HEX",
        "───────────────────────────────────────────────────────────",
        "00000000 │ AB AB AB AB AB AB AB AB  AB AB AB AB AB AB AB AB ",
        "******** │ (repeats 1 lines)                                ",
        "00000018 │ AB AB AB AB AB AB AB AB                          ",
        "───────────────────────────────────────────────────────────",
        "00000028 │ read total:              40 B     (40 B)         ",
    ]);
}

#[test]
fn duplicate_run_ended_by_differing_row() {
    let mut bytes = vec![0u8; 32];
    bytes.extend(vec![0xFFu8; 16]);
    let engine = run(bytes, true, false, 0, false, 0);
    assert_eq!(lines(&engine), vec![
        "DATA IDX │ DATA AS HEX",
        "───────────────────────────────────────────────────────────",
        "00000000 │ 00 00 00 00 00 00 00 00  00 00 00 00 00 00 00 00 ",
        "******** │ (repeats 1 lines)                                ",
        "00000020 │ FF FF FF FF FF FF FF FF  FF FF FF FF FF FF FF FF ",
        "───────────────────────────────────────────────────────────",
        "00000030 │ read total:              48 B     (48 B)         ",
    ]);
}

#[test]
fn show_identical_never_emits_a_marker() {
    let engine = run(vec![0u8; 160], true, false, 0, true, 0);
    let out = lines(&engine);
    assert_eq!(out.len(), 14);
    assert!(out.iter().all(|l| !l.starts_with('*')));
}

#[test]
fn limit_truncates_final_row_to_remainder() {
    let engine = run(vec![0x11; 40], true, false, 0, true, 20);
    assert_eq!(lines(&engine), vec![
        "DATA IDX │ DATA AS HEX",
        "───────────────────────────────────────────────────────────",
        "00000000 │ 11 11 11 11 11 11 11 11  11 11 11 11 11 11 11 11 ",
        "00000004 │ 11 11 11 11                                      ",
        "───────────────────────────────────────────────────────────",
        "00000014 │ read total:              20 B     (20 B)         ",
    ]);
}

#[test]
fn limit_truncation_never_exceeds_bytes_actually_read() {
    // the limit of 20 leaves a remainder of 4, but the source holds only
    // 18 bytes: the final row shows the 2 bytes that were read, and the
    // counter reports 18, not 20
    let engine = run(vec![0x55; 18], true, false, 0, true, 20);
    assert_eq!(lines(&engine), vec![
        "DATA IDX │ DATA AS HEX",
        "───────────────────────────────────────────────────────────",
        "00000000 │ 55 55 55 55 55 55 55 55  55 55 55 55 55 55 55 55 ",
        "00000002 │ 55 55                                            ",
        "───────────────────────────────────────────────────────────",
        "00000012 │ read total:              18 B     (18 B)         ",
    ]);
    assert_eq!(engine.rd_counter, 18);
}

#[test]
fn limit_multiple_of_row_width_stops_after_last_full_row() {
    let engine = run(vec![0x22; 64], true, false, 0, true, 16);
    let out = lines(&engine);
    assert_eq!(out.len(), 5);
    assert_eq!(out[2], "00000000 │ 22 22 22 22 22 22 22 22  22 22 22 22 22 22 22 22 ");
    assert_eq!(out[4], "00000010 │ read total:              16 B     (16 B)         ");
}

#[test]
fn skip_on_seekable_source_moves_past_prefix() {
    let bytes: Vec<u8> = (0u8..32).collect();
    let engine = run(bytes, true, false, 16, true, 0);
    assert_eq!(lines(&engine), vec![
        "DATA IDX │ DATA AS HEX",
        "───────────────────────────────────────────────────────────",
        "00000000 │ 10 11 12 13 14 15 16 17  18 19 1A 1B 1C 1D 1E 1F ",
        "───────────────────────────────────────────────────────────",
        "00000020 │ read total:              32 B     (32 B)         ",
    ]);
    assert!(engine.warnings.is_empty());
}

#[test]
fn skip_on_stream_source_warns_and_reads_everything() {
    let bytes: Vec<u8> = (0u8..32).collect();
    let engine = run(bytes, false, false, 16, true, 0);
    assert_eq!(engine.warnings.len(), 1);
    assert_eq!(engine.warnings[0], "can't skip bytes for this data source!");
    assert_eq!(lines(&engine), vec![
        "DATA IDX │ DATA AS HEX",
        "───────────────────────────────────────────────────────────",
        "00000000 │ 00 01 02 03 04 05 06 07  08 09 0A 0B 0C 0D 0E 0F ",
        "00000010 │ 10 11 12 13 14 15 16 17  18 19 1A 1B 1C 1D 1E 1F ",
        "───────────────────────────────────────────────────────────",
        "00000030 │ read total:              48 B     (48 B)         ",
    ]);
}

#[test]
fn char_mode_masks_bytes_and_frames_them() {
    let bytes = vec![0x41u8, 0x0A, 0x20, 0x09, 0x01, 0x7E, 0x21, 0x42];
    let engine = run(bytes, true, true, 0, true, 0);
    assert_eq!(lines(&engine), vec![
        "DATA IDX │ DATA AS HEX                                      │ DATA AS CHAR",
        "────────────────────────────────────────────────────────────────────────────────",
        "00000000 │ 41 0A 20 09 01 7E 21 42                          │ |A↩␣⭾�~!B|",
        "────────────────────────────────────────────────────────────────────────────────",
        "00000008 │ read total:              8 B      (8 B)          │",
    ]);
}

#[test]
fn summary_shows_kib_sizes_humanly() {
    let engine = run(vec![0u8; 2048], true, false, 0, false, 0);
    assert_eq!(lines(&engine), vec![
        "DATA IDX │ DATA AS HEX",
        "───────────────────────────────────────────────────────────",
        "00000000 │ 00 00 00 00 00 00 00 00  00 00 00 00 00 00 00 00 ",
        "******** │ (repeats 126 lines)                              ",
        "000007F0 │ 00 00 00 00 00 00 00 00  00 00 00 00 00 00 00 00 ",
        "───────────────────────────────────────────────────────────",
        "00000800 │ read total:              2.00 K   (2048 B)       ",
    ]);
}

#[test]
fn summary_counts_skip_plus_reads() {
    let engine = run(vec![0x33; 24], true, false, 8, true, 0);
    // 8 skipped + 16 read in the full row + 0 from the end-of-stream read
    assert_eq!(engine.rd_counter, 24);
    let out = lines(&engine);
    assert_eq!(out[out.len() - 1], "00000018 │ read total:              24 B     (24 B)         ");
}
