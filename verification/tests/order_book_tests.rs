use book_mirror::order_book::ChecksumOutcome;
use book_mirror::order_book::Level;
use book_mirror::order_book::OrderBook;
use book_mirror::order_book::WireEntry;

fn entry(fields: &[&str]) -> WireEntry {
    let mut v: Vec<Option<String>> = Vec::new();
    for f in fields {
        v.push(Some((*f).to_string()));
    }
    WireEntry { fields: v }
}

fn entries(rows: &[&[&str]]) -> Vec<WireEntry> {
    let mut v: Vec<WireEntry> = Vec::new();
    for r in rows {
        v.push(entry(r));
    }
    v
}

fn lvl(price: u64, volume: u64) -> Level {
    Level { price, volume }
}

fn snapshot_asks() -> Vec<WireEntry> {
    entries(&[
        &["5711.80000", "8.13439401", "1557070784.848047"],
        &["5712.20000", "2.00000000", "1557070757.056750"],
        &["5712.80000", "0.30000000", "1557070783.806432"],
        &["5713.00000", "3.29800000", "1557070774.281619"],
        &["5713.10000", "1.00000000", "1557070741.315583"],
        &["5713.90000", "1.00000000", "1557070698.840502"],
        &["5714.70000", "0.50000000", "1557070743.861074"],
        &["5715.20000", "1.00000000", "1557070697.871150"],
        &["5716.60000", "1.22700000", "1557070775.294557"],
        &["5716.80000", "0.35000000", "1557070749.823148"],
    ])
}

fn snapshot_bids() -> Vec<WireEntry> {
    entries(&[
        &["5711.70000", "0.00749800", "1557070712.848376"],
        &["5709.20000", "3.30000000", "1557070766.260894"],
        &["5708.30000", "0.75483907", "1557070781.425374"],
        &["5708.20000", "5.00000000", "1557070780.762871"],
        &["5707.80000", "2.50000000", "1557070722.912548"],
        &["5707.40000", "4.33000000", "1557070732.546143"],
        &["5707.00000", "0.00200000", "1557070604.962840"],
        &["5706.90000", "1.17300000", "1557070715.529722"],
        &["5706.40000", "0.85600000", "1557070777.204262"],
        &["5706.30000", "1.00000000", "1557070753.118938"],
    ])
}

fn initialized_book() -> OrderBook {
    let mut book = OrderBook::new(10);
    book.initialize(Some(&snapshot_asks()), Some(&snapshot_bids()));
    book
}

fn expected_asks() -> Vec<Level> {
    vec![
        lvl(571180000, 813439401),
        lvl(571220000, 200000000),
        lvl(571280000, 30000000),
        lvl(571300000, 329800000),
        lvl(571310000, 100000000),
        lvl(571390000, 100000000),
        lvl(571470000, 50000000),
        lvl(571520000, 100000000),
        lvl(571660000, 122700000),
        lvl(571680000, 35000000),
    ]
}

#[test]
fn test_order_book_initialization() {
    let book = initialized_book();

    assert_eq!(book.asks().len(), 10);
    assert_eq!(book.bids().len(), 10);
    // 5711.75, scaled to five decimal places, separates the two sides.
    for level in book.asks().iter() {
        assert!(level.price > 571175000);
    }
    for level in book.bids().iter() {
        assert!(level.price < 571175000);
    }
}

#[test]
fn test_order_book_update() {
    let mut book = initialized_book();

    // Raise 5709.20 to 3.0, delete 5708.20, insert 5705.90 at the tail
    // (its republish marker carries no effect).
    let update1 = entries(&[
        &["5709.20000", "3.00000000", "1557070785.898642"],
        &["5708.20000", "0.00000000", "1557070786.010118"],
        &["5705.90000", "7.62400000", "1557070783.582385", "r"],
    ]);
    book.update(&entries(&[]), &update1);

    assert_eq!(book.asks(), &expected_asks());
    assert_eq!(
        book.bids(),
        &vec![
            lvl(571170000, 749800),
            lvl(570920000, 300000000),
            lvl(570830000, 75483907),
            lvl(570780000, 250000000),
            lvl(570740000, 433000000),
            lvl(570700000, 200000),
            lvl(570690000, 117300000),
            lvl(570640000, 85600000),
            lvl(570630000, 100000000),
            lvl(570590000, 762400000),
        ]
    );

    // Raise 5709.20 to 8.0 and insert 5709.40 above it; the lowest bid
    // is evicted to keep the depth at ten.
    let update2 = entries(&[
        &["5709.20000", "8.00000000", "1557070786.250425"],
        &["5709.40000", "0.30000000", "1557070786.259115"],
    ]);
    book.update(&entries(&[]), &update2);

    assert_eq!(book.asks(), &expected_asks());
    assert_eq!(
        book.bids(),
        &vec![
            lvl(571170000, 749800),
            lvl(570940000, 30000000),
            lvl(570920000, 800000000),
            lvl(570830000, 75483907),
            lvl(570780000, 250000000),
            lvl(570740000, 433000000),
            lvl(570700000, 200000),
            lvl(570690000, 117300000),
            lvl(570640000, 85600000),
            lvl(570630000, 100000000),
        ]
    );

    // Delete 5708.30 and re-report 5705.90, which returns to the tail.
    let update3 = entries(&[
        &["5708.30000", "0.00000000", "1557070786.389495"],
        &["5705.90000", "7.62400000", "1557070783.582385", "r"],
    ]);
    book.update(&entries(&[]), &update3);

    assert_eq!(book.asks(), &expected_asks());
    assert_eq!(
        book.bids(),
        &vec![
            lvl(571170000, 749800),
            lvl(570940000, 30000000),
            lvl(570920000, 800000000),
            lvl(570780000, 250000000),
            lvl(570740000, 433000000),
            lvl(570700000, 200000),
            lvl(570690000, 117300000),
            lvl(570640000, 85600000),
            lvl(570630000, 100000000),
            lvl(570590000, 762400000),
        ]
    );
}

#[test]
fn test_order_book_checksum() {
    let mut book = OrderBook::new(10);
    let asks = entries(&[
        &["0.05005", "0.00000500", "1582905487.684110"],
        &["0.05010", "0.00000500", "1582905486.187983"],
        &["0.05015", "0.00000500", "1582905484.480241"],
        &["0.05020", "0.00000500", "1582905486.645658"],
        &["0.05025", "0.00000500", "1582905486.859009"],
        &["0.05030", "0.00000500", "1582905488.601486"],
        &["0.05035", "0.00000500", "1582905488.357312"],
        &["0.05040", "0.00000500", "1582905488.785484"],
        &["0.05045", "0.00000500", "1582905485.302661"],
        &["0.05050", "0.00000500", "1582905486.157467"],
    ]);
    let bids = entries(&[
        &["0.05000", "0.00000500", "1582905487.439814"],
        &["0.04995", "0.00000500", "1582905485.119396"],
        &["0.04990", "0.00000500", "1582905486.432052"],
        &["0.04980", "0.00000500", "1582905480.609351"],
        &["0.04975", "0.00000500", "1582905476.793880"],
        &["0.04970", "0.00000500", "1582905486.767461"],
        &["0.04965", "0.00000500", "1582905481.767528"],
        &["0.04960", "0.00000500", "1582905487.378907"],
        &["0.04955", "0.00000500", "1582905483.626664"],
        &["0.04950", "0.00000500", "1582905488.509872"],
    ]);
    book.initialize(Some(&asks), Some(&bids));
    assert_eq!(book.calculate_checksum(), 974947235);
}

#[test]
fn test_checksum_repeats_on_same_state() {
    let book = initialized_book();
    let first = book.calculate_checksum();
    let second = book.calculate_checksum();
    assert_eq!(first, second);

    let again = initialized_book();
    assert_eq!(again.calculate_checksum(), first);
}

#[test]
fn test_checksum_matches_canonical_encoding() {
    let mut book = OrderBook::new(10);
    let asks = entries(&[&["0.05005", "0.00000500", "1582905487.684110"]]);
    let bids = entries(&[&["0.05000", "0.00000500", "1582905487.439814"]]);
    book.initialize(Some(&asks), Some(&bids));
    // One ask 5005/500 then one bid 5000/500, digits only, zeros
    // stripped from the front of each segment.
    let expected = crc32fast::hash("50055005000500".as_bytes());
    assert_eq!(book.calculate_checksum(), expected);
}

#[test]
fn test_delete_absent_price_is_noop() {
    let mut book = initialized_book();
    let before_bids = book.bids().clone();
    let before_asks = book.asks().clone();

    // 5700.00 rests on neither side.
    let diff = entries(&[&["5700.00000", "0.00000000", "1557070786.000000"]]);
    book.update(&diff, &diff);

    assert_eq!(book.bids(), &before_bids);
    assert_eq!(book.asks(), &before_asks);
}

#[test]
fn test_replace_keeps_position_and_length() {
    let mut book = initialized_book();
    let diff = entries(&[&["5712.20000", "9.99000000", "1557070786.000000"]]);
    book.update(&diff, &entries(&[]));

    assert_eq!(book.asks().len(), 10);
    assert_eq!(book.asks()[1], lvl(571220000, 999000000));
    // Every other ask is untouched.
    let exp = expected_asks();
    for i in 0..10 {
        if i != 1 {
            assert_eq!(book.asks()[i], exp[i]);
        }
    }
}

#[test]
fn test_snapshot_drops_unparsable_entries() {
    let mut book = OrderBook::new(10);
    let asks = entries(&[
        &["5711.80000", "8.13439401", "t"],
        &["bad", "1.00000000", "t"],
        &["5712.20000", "oops", "t"],
        &["5712.80000", "0.30000000", "t"],
    ]);
    book.initialize(Some(&asks), None);
    assert_eq!(
        book.asks(),
        &vec![lvl(571180000, 813439401), lvl(571280000, 30000000)]
    );
    assert_eq!(book.bids().len(), 0);
}

#[test]
fn test_snapshot_takes_depth_then_parses() {
    // The depth cut comes before parsing: a bad entry inside the first
    // `depth` rows leaves the side short.
    let mut book = OrderBook::new(2);
    let asks = entries(&[
        &["5711.80000", "8.13439401", "t"],
        &["bad", "1.00000000", "t"],
        &["5712.80000", "0.30000000", "t"],
    ]);
    book.initialize(Some(&asks), None);
    assert_eq!(book.asks(), &vec![lvl(571180000, 813439401)]);
}

#[test]
fn test_snapshot_keeps_first_of_duplicate_price() {
    let mut book = OrderBook::new(10);
    let asks = entries(&[
        &["5711.80000", "1.00000000", "t"],
        &["5711.80000", "2.00000000", "t"],
    ]);
    book.initialize(Some(&asks), None);
    assert_eq!(book.asks(), &vec![lvl(571180000, 100000000)]);
}

#[test]
fn test_update_malformed_volume_degrades_to_delete() {
    // A diff volume that fails to parse degrades to zero, which deletes
    // the level at that price.
    let mut book = initialized_book();
    let diff = entries(&[&["5712.20000", "garbage", "t"]]);
    book.update(&diff, &entries(&[]));
    assert_eq!(book.asks().len(), 9);
    for level in book.asks().iter() {
        assert_ne!(level.price, 571220000);
    }
}

#[test]
fn test_update_short_entry_is_skipped() {
    // A diff entry without a timestamp element is skipped outright.
    let mut book = initialized_book();
    let diff = entries(&[&["5712.20000", "0.00000000"]]);
    book.update(&diff, &entries(&[]));
    assert_eq!(book.asks(), &expected_asks());
}

#[test]
fn test_process_update_checksum_match() {
    let mut probe = initialized_book();
    let diff = entries(&[&["5709.20000", "3.00000000", "t"]]);
    probe.update(&entries(&[]), &diff);
    let expected = probe.calculate_checksum();

    let mut book = initialized_book();
    let outcome = book.process_update(&entries(&[]), &diff, Some(&expected.to_string()));
    assert_eq!(outcome, ChecksumOutcome::Matched { value: expected });
}

#[test]
fn test_process_update_checksum_mismatch() {
    let mut probe = initialized_book();
    let diff = entries(&[&["5709.20000", "3.00000000", "t"]]);
    probe.update(&entries(&[]), &diff);
    let computed = probe.calculate_checksum();
    let wrong = computed.wrapping_add(1);

    let mut book = initialized_book();
    let outcome = book.process_update(&entries(&[]), &diff, Some(&wrong.to_string()));
    assert_eq!(
        outcome,
        ChecksumOutcome::Mismatched { computed, supplied: wrong }
    );
    // The book keeps the update regardless.
    assert_eq!(book.bids()[1], lvl(570920000, 300000000));
}

#[test]
fn test_process_update_checksum_unusable() {
    let diff = entries(&[&["5709.20000", "3.00000000", "t"]]);

    let mut book = initialized_book();
    let outcome = book.process_update(&entries(&[]), &diff, None);
    assert_eq!(outcome, ChecksumOutcome::Unusable);

    let mut book2 = initialized_book();
    let bad = String::from("not-a-number");
    let outcome2 = book2.process_update(&entries(&[]), &diff, Some(&bad));
    assert_eq!(outcome2, ChecksumOutcome::Unusable);
    // The update itself still went through.
    assert_eq!(book2.bids()[1], lvl(570920000, 300000000));
}
