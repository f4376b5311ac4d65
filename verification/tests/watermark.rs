use mini_lsm::mvcc::watermark::Watermark;

#[test]
fn a_new_watermark_has_no_readers() {
    let watermark = Watermark::new();
    assert_eq!(watermark.watermark(), None);
    assert_eq!(watermark.num_retained_snapshots(), 0);
}

#[test]
fn the_watermark_is_the_lowest_timestamp_with_readers() {
    let mut watermark = Watermark::new();
    watermark.add_reader(1000);
    for ts in 1..1000u64 {
        watermark.add_reader(1000 + ts);
        assert_eq!(watermark.watermark(), Some(1000));
        assert_eq!(watermark.num_retained_snapshots(), (ts + 1) as usize);
    }
    for ts in 1..500u64 {
        watermark.remove_reader(1000 + ts);
        assert_eq!(watermark.watermark(), Some(1000));
    }
    assert_eq!(watermark.num_retained_snapshots(), 501);
    watermark.remove_reader(1000);
    assert_eq!(watermark.watermark(), Some(1500));
    assert_eq!(watermark.num_retained_snapshots(), 500);
}

#[test]
fn readers_of_one_timestamp_are_counted() {
    let mut watermark = Watermark::new();
    watermark.add_reader(7);
    watermark.add_reader(7);
    watermark.add_reader(8);
    assert_eq!(watermark.num_retained_snapshots(), 2);
    watermark.remove_reader(7);
    assert_eq!(watermark.watermark(), Some(7));
    assert_eq!(watermark.num_retained_snapshots(), 2);
    watermark.remove_reader(7);
    assert_eq!(watermark.watermark(), Some(8));
    assert_eq!(watermark.num_retained_snapshots(), 1);
}

#[test]
fn leaving_undoes_joining() {
    let mut watermark = Watermark::new();
    watermark.add_reader(1);
    watermark.add_reader(2);
    watermark.remove_reader(2);
    assert_eq!(watermark.watermark(), Some(1));
    assert_eq!(watermark.num_retained_snapshots(), 1);
    // The timestamp has kept its place, and a reader can join it again.
    watermark.add_reader(2);
    assert_eq!(watermark.num_retained_snapshots(), 2);
    watermark.remove_reader(1);
    assert_eq!(watermark.watermark(), Some(2));
    watermark.remove_reader(2);
    assert_eq!(watermark.watermark(), None);
    assert_eq!(watermark.num_retained_snapshots(), 0);
}
