//! A miniature run of the whole encoding pipeline on hand-made records.

use data::aggregate::write_alias_files;
use data::details::{Alias, AliasType, Bits, Details, GraphemeBreak, HangulSyllableType};
use data::dynamic::{apply_name_rules, hangul_lvt_indices};
use data::paged::{sparse_get_u16, sparse_get_u8};
use data::pool::{Pool, Popularity};
use data::tables::{write_bits, write_gb, write_hlvt, write_page_bits, write_pool_indices, Field};
use data::uax29::generate_egcbreak;

#[test]
fn miniature_pipeline_round_trips_every_property() {
    let n = 0xD800;
    let mut ud: Vec<Details> = Vec::new();
    for _ in 0..n {
        ud.push(Details::default());
    }
    let mut pop = Popularity::default();

    // A few records, spread across pages.
    let name = pop.vote("LATIN SMALL LETTER A");
    ud[0x61].name = Some(name);
    let gc = pop.vote("Lowercase Letter (Ll)");
    ud[0x61].gc = Some(gc);
    let gc2 = pop.vote("Lowercase Letter (Ll)");
    ud[0x7A].gc = Some(gc2);
    let alias = pop.vote("NUL");
    ud[0x00].alias.push(Alias { inner: alias, kind: AliasType::Abbreviation });
    ud[0x0D].gb = Some(GraphemeBreak::Cr);
    ud[0xD4DB].hst = Some(HangulSyllableType::Lvt);
    let lvt = hangul_lvt_indices(&ud, 0xD4DB);
    ud[0xD4DB].hlvt = lvt;

    // The derived-name pass claims the CJK range that fits below `n`.
    apply_name_rules(&mut ud, &mut pop);
    assert!(ud[0x4E00].bits.contains(Bits::DerivedNameNr2));

    let report = pop.report();
    // The heavily-voted derivation prefixes come first: the two CJK ranges
    // below the cutoff together outnumber the Hangul syllables.
    assert_eq!(report[0], "CJK UNIFIED IDEOGRAPH-");
    assert_eq!(report[1], "HANGUL SYLLABLE ");
    let pool = Pool::from_report(&report);

    let pages = n / 256;
    let names = write_pool_indices(&ud, &pool, Field::Name);
    let idx = pool.use_index("LATIN SMALL LETTER A") as u16;
    assert_eq!(sparse_get_u16(&names, pages, 0xFFFF, 0x61), Some(idx));
    assert_eq!(sparse_get_u16(&names, pages, 0xFFFF, 0x62), None);

    let gcs = write_pool_indices(&ud, &pool, Field::Gc);
    let gc_idx = pool.use_index("Lowercase Letter (Ll)") as u16;
    assert_eq!(sparse_get_u16(&gcs, pages, 0xFFFF, 0x61), Some(gc_idx));
    assert_eq!(sparse_get_u16(&gcs, pages, 0xFFFF, 0x7A), Some(gc_idx));

    let dnrps = write_pool_indices(&ud, &pool, Field::Dnrp);
    let dnrp_idx = pool.use_index("CJK UNIFIED IDEOGRAPH-") as u16;
    assert_eq!(sparse_get_u16(&dnrps, pages, 0xFFFF, 0x4E00), Some(dnrp_idx));

    let bits = write_bits(&ud);
    assert_eq!(sparse_get_u8(&bits, pages, 0, 0x4E00), Some(0x20));

    let gb = write_gb(&ud);
    assert_eq!(sparse_get_u8(&gb, pages, 0, 0x0D), Some(1));

    let hlvt = write_hlvt(&ud);
    assert_eq!(
        sparse_get_u16(&hlvt, pages, 0, 0xD4DB),
        Some(0x8000 | (17 << 10) | (16 << 5) | 15)
    );

    let alias_files = write_alias_files(&ud, &pool);
    let alias_idx = pool.use_index("NUL") as u16;
    assert_eq!(sparse_get_u8(&alias_files.counts, pages, 0, 0), Some(1));
    assert_eq!(sparse_get_u16(&alias_files.indices, pages, 0xFFFF, 0), Some(0));
    assert_eq!(alias_files.strings, vec![(alias_idx >> 8) as u8, alias_idx as u8]);
    assert_eq!(alias_files.types, vec![AliasType::Abbreviation.code()]);

    let summary = write_page_bits(&ud);
    assert_eq!(summary[0], 1 | 4); // a name and an alias in the first page

    let regex = generate_egcbreak().unwrap();
    assert!(!regex.contains(":="));
}
