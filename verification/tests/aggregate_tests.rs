use meta_chronic::aggregate::{aggregate, meta_source_tag, QueryResult, StrainGroup};
use meta_chronic::listing::Listing;

fn listing(source: &str, strain: &str, url: &str, rating_milli: u32, ratings: u32) -> Listing {
    Listing {
        source: source.to_string(),
        strain: strain.to_string(),
        url: url.to_string(),
        rating_milli,
        ratings,
    }
}

fn group_by_strain<'a>(r: &'a QueryResult, strain: &str) -> &'a StrainGroup {
    r.groups
        .iter()
        .find(|g| g.strain == strain)
        .expect("strain missing from result")
}

#[test]
fn no_listings_empty_result() {
    let r = aggregate(Vec::new());
    assert_eq!(r.groups.len(), 0);
}

#[test]
fn single_listing_single_record() {
    let r = aggregate(vec![listing("Allbud", "blue dream", "u", 4000, 100)]);
    assert_eq!(r.groups.len(), 1);
    assert_eq!(r.groups[0].strain, "blue dream");
    assert_eq!(r.groups[0].records.len(), 1);
    assert_eq!(r.groups[0].records[0].rating_milli, 4000);
    assert!(r.groups[0].meta.is_none());
}

#[test]
fn two_sources_meta_average() {
    // (4.0 * 100 + 4.5 * 50) / 150 = 4.1666...; in thousandths: 4166
    let r = aggregate(vec![
        listing("Allbud", "blue dream", "ua", 4000, 100),
        listing("Leafly", "blue dream", "ul", 4500, 50),
    ]);
    assert_eq!(r.groups.len(), 1);
    let g = &r.groups[0];
    assert_eq!(g.strain, "blue dream");
    assert_eq!(g.records.len(), 2);
    let m = g.meta.as_ref().expect("meta-average missing");
    assert_eq!(m.rating_milli, 4166);
    assert_eq!(m.ratings, 150);
    assert_eq!(m.source, "Meta Chronic Average");
    assert_eq!(m.strain, "blue dream");
    assert_eq!(m.url, "");
}

#[test]
fn single_source_zero_reviews() {
    let r = aggregate(vec![listing("Allbud", "og kush", "u", 4000, 0)]);
    assert_eq!(r.groups.len(), 1);
    let g = &r.groups[0];
    assert_eq!(g.records.len(), 1);
    assert_eq!(g.records[0].rating_milli, 4000);
    assert!(g.meta.is_none());
}

#[test]
fn two_sources_zero_reviews_no_meta() {
    // Every contributing source reported zero reviews: the degenerate
    // total yields no synthetic record rather than a division error.
    let r = aggregate(vec![
        listing("Allbud", "og kush", "ua", 4000, 0),
        listing("Leafly", "og kush", "ul", 4500, 0),
    ]);
    assert_eq!(r.groups.len(), 1);
    assert_eq!(r.groups[0].records.len(), 2);
    assert!(r.groups[0].meta.is_none());
}

#[test]
fn weighted_average_three_sources() {
    // (2.0*10 + 3.0*20 + 4.0*30) / 60 = 200/60 = 3.3333... -> 3333
    let r = aggregate(vec![
        listing("A", "gg4", "", 2000, 10),
        listing("B", "gg4", "", 3000, 20),
        listing("C", "gg4", "", 4000, 30),
    ]);
    let g = group_by_strain(&r, "gg4");
    let m = g.meta.as_ref().expect("meta-average missing");
    assert_eq!(m.rating_milli, 3333);
    assert_eq!(m.ratings, 60);
}

#[test]
fn single_source_many_strains_no_meta() {
    let r = aggregate(vec![
        listing("Allbud", "blue dream", "", 4000, 10),
        listing("Allbud", "og kush", "", 3000, 20),
    ]);
    assert_eq!(r.groups.len(), 2);
    for g in &r.groups {
        assert!(g.meta.is_none());
        assert_eq!(g.records.len(), 1);
    }
}

#[test]
fn same_source_overwrite() {
    // Two listings of one source normalizing to the same name: the later
    // one silently replaces the earlier under that source's key.
    let r = aggregate(vec![
        listing("Allbud", "Blue-Dream", "old", 3000, 5),
        listing("Allbud", "blue dream", "new", 4000, 7),
    ]);
    assert_eq!(r.groups.len(), 1);
    let g = &r.groups[0];
    assert_eq!(g.strain, "blue dream");
    assert_eq!(g.records.len(), 1);
    assert_eq!(g.records[0].url, "new");
    assert_eq!(g.records[0].ratings, 7);
    assert!(g.meta.is_none());
}

#[test]
fn cosmetic_variants_share_a_group() {
    // Hyphen/space and case differences between sources reconcile to one
    // group; the records keep the names as extracted.
    let r = aggregate(vec![
        listing("Allbud", "Blue-Dream", "ua", 4000, 100),
        listing("Leafly", "blue dream", "ul", 4500, 50),
    ]);
    assert_eq!(r.groups.len(), 1);
    let g = &r.groups[0];
    assert_eq!(g.strain, "blue dream");
    assert_eq!(g.records.len(), 2);
    assert_eq!(g.records[0].strain, "Blue-Dream");
    assert_eq!(g.records[1].strain, "blue dream");
    assert!(g.meta.is_some());
}

#[test]
fn fold_order_of_sources_is_immaterial() {
    let a = vec![
        listing("Allbud", "blue dream", "ua", 4000, 100),
        listing("Allbud", "og kush", "ub", 3000, 10),
    ];
    let b = vec![listing("Leafly", "blue dream", "ul", 4500, 50)];

    let mut ab = a.clone();
    ab.extend(b.iter().cloned());
    let mut ba = b.clone();
    ba.extend(a.iter().cloned());

    let r1 = aggregate(ab);
    let r2 = aggregate(ba);
    assert_eq!(r1.groups.len(), r2.groups.len());
    for g1 in &r1.groups {
        let g2 = group_by_strain(&r2, &g1.strain);
        assert_eq!(g1.records.len(), g2.records.len());
        for rec in &g1.records {
            let other = g2
                .records
                .iter()
                .find(|o| o.source == rec.source)
                .expect("source missing in other order");
            assert_eq!(other.strain, rec.strain);
            assert_eq!(other.url, rec.url);
            assert_eq!(other.rating_milli, rec.rating_milli);
            assert_eq!(other.ratings, rec.ratings);
        }
        match (&g1.meta, &g2.meta) {
            (Some(m1), Some(m2)) => {
                assert_eq!(m1.rating_milli, m2.rating_milli);
                assert_eq!(m1.ratings, m2.ratings);
                assert_eq!(m1.strain, m2.strain);
            }
            (None, None) => {}
            _ => panic!("meta presence differs between fold orders"),
        }
    }
}

#[test]
fn aggregate_idempotent() {
    let input = vec![
        listing("Allbud", "blue dream", "ua", 4000, 100),
        listing("Leafly", "blue dream", "ul", 4500, 50),
        listing("Leafly", "og kush", "uk", 3500, 7),
    ];
    let r1 = aggregate(input.clone());
    let r2 = aggregate(input);
    assert_eq!(r1.groups.len(), r2.groups.len());
    for (g1, g2) in r1.groups.iter().zip(r2.groups.iter()) {
        assert_eq!(g1.strain, g2.strain);
        assert_eq!(g1.records.len(), g2.records.len());
        for (a, b) in g1.records.iter().zip(g2.records.iter()) {
            assert_eq!(a.source, b.source);
            assert_eq!(a.strain, b.strain);
            assert_eq!(a.url, b.url);
            assert_eq!(a.rating_milli, b.rating_milli);
            assert_eq!(a.ratings, b.ratings);
        }
        match (&g1.meta, &g2.meta) {
            (Some(m1), Some(m2)) => {
                assert_eq!(m1.rating_milli, m2.rating_milli);
                assert_eq!(m1.ratings, m2.ratings);
            }
            (None, None) => {}
            _ => panic!("results differ between identical runs"),
        }
    }
}

#[test]
fn meta_source_tag_value() {
    assert_eq!(meta_source_tag(), "Meta Chronic Average");
}
