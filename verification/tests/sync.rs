use deluge_rust::resource::sync::{m_get, m_rmw, m_set, CountingMask, Masked};

#[test]
fn fiber_masks_rmw() {
    let mut mask = CountingMask::new(false); // fiber context
    let mut c = 1u32;
    m_rmw(&mut mask, &mut c, |_m, v| *v += 1);
    assert_eq!(c, 2);
    assert_eq!(mask.enter_count, 1, "fiber RMW must mask exactly once");
    assert_eq!(mask.exit_count, 1);
}

#[test]
fn audio_skips_mask() {
    let mut mask = CountingMask::new(true); // audio ISR context
    let mut c = 1u32;
    m_rmw(&mut mask, &mut c, |_m, v| *v += 1);
    assert_eq!(c, 2);
    assert_eq!(mask.enter_count, 0, "audio path must not mask");
    assert_eq!(mask.exit_count, 0);
}

#[test]
fn nesting_masks_once_per_level() {
    let mut mask = CountingMask::new(false);
    let mut outer = 0u32;
    let mut inner = 0u32;
    m_rmw(&mut mask, &mut outer, |m, o| {
        *o += 1;
        m_rmw(m, &mut inner, |_m, i| *i += 1); // nested masked access
    });
    assert_eq!(outer, 1);
    assert_eq!(inner, 1);
    assert_eq!(mask.enter_count, 2, "one enter per masked call, nested");
    assert_eq!(mask.exit_count, 2);
    assert_eq!(mask.depth, 0);
}

#[test]
fn reads_and_writes_mask_once_each() {
    let mut mask = CountingMask::new(false);
    let mut c = 5u8;
    assert_eq!(m_get(&mut mask, &c), 5);
    m_set(&mut mask, &mut c, 9);
    assert_eq!(m_get(&mut mask, &c), 9);
    assert_eq!((mask.enter_count, mask.exit_count, mask.depth), (3, 3, 0));
}

#[test]
fn window_is_open_until_it_is_left() {
    let mut mask = CountingMask::new(false);
    let w = Masked::enter(&mut mask);
    assert_eq!((mask.enter_count, mask.exit_count, mask.depth), (1, 0, 1));
    w.exit(&mut mask);
    assert_eq!((mask.enter_count, mask.exit_count, mask.depth), (1, 1, 0));

    mask.in_isr = true;
    let w = Masked::enter(&mut mask);
    w.exit(&mut mask);
    assert_eq!((mask.enter_count, mask.exit_count, mask.depth), (1, 1, 0));
}
