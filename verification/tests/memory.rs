use tdx_measure::memory::MemoryAcceptor;

#[test]
fn acceptor_starts_with_one_unaccepted_range() {
    let m = MemoryAcceptor::new(0, 0x8000_0000);
    assert_eq!(m.ranges, vec![(false, 0, 0x8000_0000)]);
}

#[test]
fn accept_splits_the_covering_range() {
    let mut m = MemoryAcceptor::new(0, 0x10000);
    m.accept(0x2000, 0x3000);
    assert_eq!(
        m.ranges,
        vec![(false, 0, 0x2000), (true, 0x2000, 0x3000), (false, 0x3000, 0x10000)]
    );
}

#[test]
fn accept_at_the_edges() {
    let mut m = MemoryAcceptor::new(0, 0x10000);
    m.accept(0, 0x1000);
    assert_eq!(m.ranges, vec![(true, 0, 0x1000), (false, 0x1000, 0x10000)]);
    m.accept(0xf000, 0x10000);
    assert_eq!(
        m.ranges,
        vec![(true, 0, 0x1000), (false, 0x1000, 0xf000), (true, 0xf000, 0x10000)]
    );
}

#[test]
fn accept_empty_interval_changes_nothing() {
    let mut m = MemoryAcceptor::new(0, 0x10000);
    m.accept(0x3000, 0x3000);
    m.accept(0x4000, 0x2000);
    assert_eq!(m.ranges, vec![(false, 0, 0x10000)]);
}

#[test]
fn accept_keeps_previously_accepted_ranges() {
    // The sections of a TD: TD HOB at 0x809000 and temporary memory after it.
    let mut m = MemoryAcceptor::new(0, 0x8000_0000);
    m.accept(0x809000, 0x80b000);
    m.accept(0x80b000, 0x81b000);
    assert_eq!(
        m.ranges,
        vec![
            (false, 0, 0x809000),
            (true, 0x809000, 0x80b000),
            (true, 0x80b000, 0x81b000),
            (false, 0x81b000, 0x8000_0000),
        ]
    );
    // Accepting over an accepted range keeps it and adds the new one.
    m.accept(0x80a000, 0x80c000);
    assert_eq!(
        m.ranges,
        vec![
            (false, 0, 0x809000),
            (true, 0x809000, 0x80b000),
            (true, 0x80a000, 0x80c000),
            (true, 0x80b000, 0x81b000),
            (false, 0x81b000, 0x8000_0000),
        ]
    );
}

#[test]
fn accept_outside_memory_adds_the_range() {
    let mut m = MemoryAcceptor::new(0, 0x1000);
    m.accept(0x2000, 0x3000);
    assert_eq!(m.ranges, vec![(false, 0, 0x1000), (true, 0x2000, 0x3000)]);
}

fn covered(ranges: &[(bool, u64, u64)], a: u64) -> bool {
    ranges.iter().any(|&(_, s, e)| s <= a && a < e)
}

#[test]
fn accepting_loses_no_memory() {
    let mut m = MemoryAcceptor::new(0, 0x10_0000);
    m.accept(0x8000, 0x9000);
    m.accept(0x20_0000, 0x20_1000);
    m.accept(0x8800, 0xa000);
    for a in (0..0x10_0000u64).step_by(0x100) {
        assert!(covered(&m.ranges, a), "{a:#x} lost");
    }
    assert!(covered(&m.ranges, 0x20_0800));
    assert!(!covered(&m.ranges, 0x10_0000));
    assert!(!covered(&m.ranges, 0x20_1000));
    // No unaccepted range overlaps an accepted interval.
    for &(acc, s, e) in &m.ranges {
        if !acc {
            assert!(e <= 0x8800 || s >= 0xa000);
        }
    }
}

fn tiles(ranges: &[(bool, u64, u64)], lo: u64, hi: u64) -> bool {
    !ranges.is_empty()
        && ranges[0].1 == lo
        && ranges[ranges.len() - 1].2 == hi
        && ranges.iter().all(|&(_, s, e)| s < e)
        && ranges.windows(2).all(|w| w[0].2 == w[1].1)
}

#[test]
fn accepting_inside_memory_keeps_the_map_contiguous() {
    let mut m = MemoryAcceptor::new(0, 0x10_0000);
    for &(s, e) in &[(0x8000u64, 0x9000u64), (0, 0x1000), (0x9000, 0x10_0000), (0x2000, 0x8000)] {
        m.accept(s, e);
        assert!(tiles(&m.ranges, 0, 0x10_0000), "{:?}", m.ranges);
    }
    assert_eq!(
        m.ranges,
        vec![
            (true, 0, 0x1000),
            (false, 0x1000, 0x2000),
            (true, 0x2000, 0x8000),
            (true, 0x8000, 0x9000),
            (true, 0x9000, 0x10_0000),
        ]
    );
}

fn marked(ranges: &[(bool, u64, u64)], acc: bool, a: u64) -> bool {
    ranges.iter().any(|&(x, s, e)| x == acc && s <= a && a < e)
}

#[test]
fn accepting_marks_exactly_the_interval() {
    let mut m = MemoryAcceptor::new(0, 0x4000);
    m.accept(0x1000, 0x2000);
    let before = m.ranges.clone();
    m.accept(0x2800, 0x3800);
    for a in (0..0x5000u64).step_by(0x400) {
        let inside = (0x2800..0x3800).contains(&a);
        assert_eq!(marked(&m.ranges, true, a), marked(&before, true, a) || inside);
        assert_eq!(marked(&m.ranges, false, a), marked(&before, false, a) && !inside);
    }
}
