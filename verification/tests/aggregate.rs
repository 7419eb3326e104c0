use data::aggregate::{write_alias_files, write_sequence_files};
use data::details::{Alias, AliasType, Details};
use data::pool::{Pool, Popularity};
use data::sequence::Sequences;

fn records(n: usize) -> Vec<Details> {
    let mut v = Vec::new();
    for _ in 0..n {
        v.push(Details::default());
    }
    v
}

#[test]
fn alias_files_carry_counts_offsets_entries_in_append_order() {
    let mut ud = records(256);
    let mut pop = Popularity::default();
    let a = pop.vote("ALPHA");
    let b = pop.vote("BRAVO");
    let a2 = pop.vote("ALPHA");
    ud[1].alias.push(Alias { inner: a, kind: AliasType::Correction });
    ud[1].alias.push(Alias { inner: b, kind: AliasType::Cldr });
    ud[2].alias.push(Alias { inner: a2, kind: AliasType::Abbreviation });
    let report = pop.report();
    // "ALPHA" voted twice, "BRAVO" once.
    assert_eq!(report, vec!["ALPHA", "BRAVO"]);
    let pool = Pool::from_report(&report);

    let files = write_alias_files(&ud, &pool);
    // Count table: one non-empty page.
    assert_eq!(files.counts.len(), 2 + 256);
    assert_eq!(&files.counts[0..2], &[0, 0]);
    assert_eq!(files.counts[2 + 1], 2);
    assert_eq!(files.counts[2 + 2], 1);
    assert_eq!(files.counts[2 + 3], 0);
    // Offset table: record 1 at offset 0, record 2 at offset 2.
    assert_eq!(files.indices.len(), 2 + 512);
    assert_eq!(&files.indices[2 + 2..2 + 6], &[0x00, 0x00, 0x00, 0x02]);
    assert_eq!(&files.indices[2..2 + 2], &[0xFF, 0xFF]);
    // Flattened pool indices: ALPHA(0), BRAVO(1), ALPHA(0), in append order.
    assert_eq!(files.strings, vec![0x00, 0x00, 0x00, 0x01, 0x00, 0x00]);
    // Flattened type tags.
    assert_eq!(files.types, vec![0, 6, 4]);
}

#[test]
fn sequence_files_hold_headers_and_flattened_streams() {
    let mut s = Sequences::default();
    let mut pop = Popularity::default();
    let n1 = pop.vote("KEYCAP ONE");
    let n2 = pop.vote("KEYCAP ONE ALT");
    let n3 = pop.vote("FLAG");
    s.insert(&vec![0x31, 0xFE0F, 0x20E3], n1);
    s.insert(&vec![0x31, 0xFE0F, 0x20E3], n2);
    s.insert(&vec![0x1F1E6, 0x1F1E8], n3);
    let report = pop.report();
    assert_eq!(report, vec!["FLAG", "KEYCAP ONE", "KEYCAP ONE ALT"]);
    let pool = Pool::from_report(&report);

    let files = write_sequence_files(&s, &pool);
    // Bucket headers: 11 bytes each, ascending key order.
    assert_eq!(files.seqb.len(), 22);
    assert_eq!(
        &files.seqb[0..11],
        &[0x00, 0x00, 0x00, 0x31, 0x00, 0x00, 0xFE, 0x0F, 0x00, 0x00, 1]
    );
    assert_eq!(
        &files.seqb[11..22],
        &[0x00, 0x01, 0xF1, 0xE6, 0x00, 0x01, 0xF1, 0xE8, 0x00, 0x01, 1]
    );
    // Member points: per-sequence (start, len) headers then flattened points.
    assert_eq!(
        files.seqp,
        vec![
            0x00, 0x00, 3, // keycap sequence: start 0, three points
            0x00, 0x03, 2, // flag sequence: start 3, two points
            0x00, 0x00, 0x00, 0x31, 0x00, 0x00, 0xFE, 0x0F, 0x00, 0x00, 0x20, 0xE3,
            0x00, 0x01, 0xF1, 0xE6, 0x00, 0x01, 0xF1, 0xE8,
        ]
    );
    // Display names: per-sequence (start, len) headers then pool indices.
    assert_eq!(
        files.seqn,
        vec![
            0x00, 0x00, 2, // keycap sequence: two names
            0x00, 0x02, 1, // flag sequence: one name
            0x00, 0x01, 0x00, 0x02, 0x00, 0x00,
        ]
    );
}
