use matrix_rain::{
    glyph, palette_tint, tint_named, to_idx, Item, Matrix, Settings, Tint, BLANK, CH_BEGIN, CH_END,
    EMPTY,
};

fn vacant(it: &Item) -> bool {
    it.val == BLANK || it.val == EMPTY
}

fn printable(v: i32) -> bool {
    (CH_BEGIN..CH_END).contains(&v)
}

fn heads_in_column(frame: &[Item], cols: usize, col: usize) -> usize {
    frame.iter().skip(col).step_by(cols).filter(|it| it.is_head).count()
}

#[test]
fn constants_and_default_cell() {
    assert_eq!(CH_BEGIN, 33);
    assert_eq!(CH_END, 127);
    assert_eq!(BLANK, ' ' as i32);
    assert_eq!(EMPTY, -1);
    let it = Item::default();
    assert_eq!(it.val, -1);
    assert!(!it.is_head);
}

#[test]
fn index_is_row_major() {
    assert_eq!(to_idx(0, 0, 10), 0);
    assert_eq!(to_idx(2, 3, 10), 23);
    assert_eq!(to_idx(1, 0, 80), 80);
}

#[test]
fn frame_has_visible_cells_only() {
    let mut m = Matrix::with_seed(7, 9, 11);
    assert_eq!(m.cols(), 7);
    assert_eq!(m.rows(), 9);
    for _ in 0..60 {
        assert_eq!(m.next().len(), 9 * 7);
    }
}

#[test]
fn odd_columns_stay_blank() {
    let mut m = Matrix::with_seed(9, 12, 3);
    for _ in 0..300 {
        let frame = m.next();
        for (k, it) in frame.iter().enumerate() {
            if k % 9 % 2 == 1 {
                assert_eq!(it.val, EMPTY);
                assert!(!it.is_head);
            }
        }
    }
}

#[test]
fn heads_are_printable() {
    let mut m = Matrix::new(20, 15);
    let mut seen = 0;
    for _ in 0..300 {
        for it in m.next() {
            assert!(vacant(it) || printable(it.val));
            if it.is_head {
                assert!(printable(it.val));
                seen += 1;
            }
        }
    }
    assert!(seen > 0);
}

#[test]
fn first_frame_of_fresh_field_is_empty() {
    let mut m = Matrix::with_seed(8, 10, 5);
    for c in (0..8).step_by(2) {
        assert!(m.space(c) >= 1 && m.space(c) <= 10);
        assert!(m.length(c) >= 3 && m.length(c) < 10);
    }
    for c in (1..8).step_by(2) {
        assert_eq!(m.space(c), 0);
        assert_eq!(m.length(c), 0);
    }
    let frame = m.next();
    assert!(frame.iter().all(|it| vacant(it) && !it.is_head));
    for c in (0..8).step_by(2) {
        assert_eq!(frame[c].val, BLANK);
    }
}

#[test]
fn countdown_decrements_while_idle() {
    let mut m = Matrix::with_seed(4, 10, 21);
    let before = m.space(0);
    m.next();
    assert_eq!(m.space(0), before - 1);
}

#[test]
fn same_seed_gives_same_frames() {
    let mut a = Matrix::with_seed(20, 15, 42);
    let mut b = Matrix::with_seed(20, 15, 42);
    for _ in 0..100 {
        let fa: Vec<Item> = a.next().to_vec();
        let fb: Vec<Item> = b.next().to_vec();
        assert_eq!(fa, fb);
    }
}

#[test]
fn different_seeds_give_different_runs() {
    let mut a = Matrix::with_seed(20, 15, 1);
    let mut b = Matrix::with_seed(20, 15, 2);
    let mut differ = false;
    for _ in 0..100 {
        let fa: Vec<Item> = a.next().to_vec();
        let fb: Vec<Item> = b.next().to_vec();
        if fa != fb {
            differ = true;
        }
    }
    assert!(differ);
}

#[test]
fn rebuilt_field_starts_fresh() {
    let mut old = Matrix::with_seed(10, 12, 8);
    for _ in 0..40 {
        old.next();
    }
    let mut fresh = Matrix::with_seed(10, 12, 9);
    for c in (0..10).step_by(2) {
        assert!(fresh.space(c) >= 1 && fresh.space(c) <= 12);
        assert!(fresh.length(c) >= 3 && fresh.length(c) < 12);
    }
    assert!(fresh.next().iter().all(|it| vacant(it)));
}

#[test]
fn small_field_lifecycle() {
    let (cols, rows) = (4, 10);
    let mut m = Matrix::with_seed(cols, rows, 2024);
    let first = m.next().to_vec();
    assert_eq!(first.len(), 40);
    assert!(heads_in_column(&first, cols, 0) <= 1);
    assert!(heads_in_column(&first, cols, 2) <= 1);
    let mut had_stream = [false; 4];
    let mut back_to_gap = [false; 4];
    for _ in 0..200 {
        let frame = m.next();
        for c in [0usize, 2] {
            let busy = frame.iter().skip(c).step_by(cols).any(|it| !vacant(it));
            if busy {
                had_stream[c] = true;
            } else if had_stream[c] {
                back_to_gap[c] = true;
            }
        }
        for c in [1usize, 3] {
            assert!(frame.iter().skip(c).step_by(cols).all(|it| it.val == EMPTY));
        }
    }
    assert!(had_stream[0] && had_stream[2]);
    assert!(back_to_gap[0] && back_to_gap[2]);
}

#[test]
fn minimum_rows_fix_length_at_three() {
    let mut m = Matrix::with_seed(5, 4, 17);
    for _ in 0..200 {
        for c in (0..5).step_by(2) {
            assert_eq!(m.length(c), 3);
            assert!(m.space(c) <= 4);
        }
        assert_eq!(m.next().len(), 20);
    }
    let mut n = Matrix::new(1, 4);
    assert_eq!(n.length(0), 3);
    assert_eq!(n.next().len(), 4);
}

#[test]
fn resize_builds_a_new_field() {
    let mut m = Matrix::new(80, 24);
    for _ in 0..30 {
        assert_eq!(m.next().len(), 80 * 24);
    }
    m = Matrix::new(40, 12);
    assert_eq!(m.cols(), 40);
    assert_eq!(m.rows(), 12);
    for _ in 0..30 {
        let frame = m.next();
        assert_eq!(frame.len(), 40 * 12);
        for (k, it) in frame.iter().enumerate() {
            if k % 40 % 2 == 1 {
                assert_eq!(it.val, EMPTY);
            }
        }
    }
}

#[test]
fn keys_change_settings() {
    let s = Settings::defaults();
    assert_eq!(s, Settings { speed: 4, tint: Tint::Green, rainbow: false });
    assert_eq!(s.on_key('q'), None);
    assert_eq!(s.on_key('Q'), None);
    assert_eq!(s.on_key('7').unwrap().speed, 7);
    assert_eq!(s.on_key('0').unwrap().speed, 0);
    let r = s.on_key('w').unwrap();
    assert!(r.rainbow);
    let m = r.on_key('M').unwrap();
    assert_eq!(m, Settings { speed: 4, tint: Tint::Magenta, rainbow: false });
    assert_eq!(m.on_key('y').unwrap().tint, Tint::Yellow);
    let fast = m.on_key('9').unwrap().on_key('W').unwrap();
    assert_eq!(fast.on_key('d').unwrap(), Settings::defaults());
    assert_eq!(fast.on_key('x').unwrap(), fast);
    assert_eq!(fast.delay_millis(), 90);
    assert_eq!(Settings::defaults().delay_millis(), 40);
}

#[test]
fn color_names_ignore_case() {
    assert_eq!(tint_named("red".as_bytes()), Tint::Red);
    assert_eq!(tint_named("BLUE".as_bytes()), Tint::Blue);
    assert_eq!(tint_named("Cyan".as_bytes()), Tint::Cyan);
    assert_eq!(tint_named("mAgEnTa".as_bytes()), Tint::Magenta);
    assert_eq!(tint_named("Yellow".as_bytes()), Tint::Green);
    assert_eq!(tint_named("reds".as_bytes()), Tint::Green);
    assert_eq!(tint_named("".as_bytes()), Tint::Green);
}

#[test]
fn palette_order_and_glyphs() {
    let all = [Tint::Green, Tint::Red, Tint::Blue, Tint::Cyan, Tint::Yellow, Tint::Magenta];
    for (i, t) in all.iter().enumerate() {
        assert_eq!(palette_tint(i), *t);
    }
    assert_eq!(glyph(Item { val: BLANK, is_head: false }), ' ');
    assert_eq!(glyph(Item { val: EMPTY, is_head: false }), ' ');
    assert_eq!(glyph(Item { val: 65, is_head: true }), 'A');
    assert_eq!(glyph(Item { val: 33, is_head: false }), '!');
}

#[test]
fn head_falls_one_row_per_frame() {
    let (cols, rows) = (6, 20);
    let mut m = Matrix::with_seed(cols, rows, 77);
    let mut prev = m.next().to_vec();
    let mut checked = 0;
    for _ in 0..500 {
        let frame = m.next().to_vec();
        for c in (0..cols).step_by(2) {
            for r in 1..rows - 1 {
                let at = |row: usize| to_idx(row, c, cols);
                let here = &prev[at(r)];
                if here.is_head && !vacant(&prev[at(r - 1)]) && vacant(&prev[at(r + 1)]) {
                    assert_eq!(frame[at(r)].val, here.val);
                    assert!(!frame[at(r)].is_head);
                    assert!(frame[at(r + 1)].is_head);
                    assert!(printable(frame[at(r + 1)].val));
                    checked += 1;
                }
            }
        }
        prev = frame;
    }
    assert!(checked > 0);
}
