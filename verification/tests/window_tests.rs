use ngram_decider::program::{Bit, Dir, State};
use ngram_decider::window::{LocalContext, NGram, Radius};

fn context(state: u8, nearby_bits: u64) -> LocalContext {
    LocalContext { state: State(state), nearby_bits }
}

fn text(chars: Vec<char>) -> String {
    chars.into_iter().collect()
}

#[test]
fn radius_has_bounds() {
    assert!(Radius::new(0).is_none());
    assert_eq!(Radius::new(1), Some(Radius(1)));
    assert_eq!(Radius::new(4), Some(Radius(4)));
    assert_eq!(Radius::new(31), Some(Radius(31)));
    assert!(Radius::new(32).is_none());
    assert!(Radius::new(255).is_none());
}

#[test]
fn push_left_at_radius_one() {
    let r = Radius(1);
    assert_eq!(context(1, 0b101).push_left(Bit(true), r), context(1, 0b011));
    assert_eq!(context(1, 0b101).push_left(Bit(false), r), context(1, 0b010));
    assert_eq!(context(3, 0b111).push_left(Bit(false), r), context(3, 0b110));
    assert_eq!(context(3, 0b000).push_left(Bit(true), r), context(3, 0b001));
}

#[test]
fn push_right_at_radius_one() {
    let r = Radius(1);
    assert_eq!(context(1, 0b101).push_right(Bit(true), r), context(1, 0b110));
    assert_eq!(context(1, 0b101).push_right(Bit(false), r), context(1, 0b010));
    assert_eq!(context(2, 0b001).push_right(Bit(false), r), context(2, 0b000));
    assert_eq!(context(2, 0b000).push_right(Bit(true), r), context(2, 0b100));
}

#[test]
fn push_left_drops_the_last_cell_at_the_widest_radius() {
    let r = Radius(31);
    let all: u64 = (1 << 63) - 1;
    assert_eq!(context(1, all).push_left(Bit(false), r), context(1, all - 1));
    assert_eq!(context(1, all).push_left(Bit(true), r), context(1, all));
    assert_eq!(context(1, 1 << 62).push_left(Bit(false), r), context(1, 0));
    assert_eq!(context(1, 1 << 61).push_left(Bit(true), r), context(1, (1 << 62) | 1));
}

#[test]
fn push_right_fills_the_last_cell_at_the_widest_radius() {
    let r = Radius(31);
    let all: u64 = (1 << 63) - 1;
    assert_eq!(context(1, 0).push_right(Bit(true), r), context(1, 1 << 62));
    assert_eq!(context(1, all).push_right(Bit(false), r), context(1, all >> 1));
    assert_eq!(context(1, all).push_right(Bit(true), r), context(1, all));
    assert_eq!(context(1, 1).push_right(Bit(false), r), context(1, 0));
}

#[test]
fn push_follows_the_direction() {
    let r = Radius(2);
    let c = context(4, 0b10110);
    assert_eq!(c.push(Dir::Left, Bit(true), r), c.push_left(Bit(true), r));
    assert_eq!(c.push(Dir::Right, Bit(true), r), c.push_right(Bit(true), r));
    assert_eq!(c.push(Dir::Left, Bit(true), r), context(4, 0b01101));
    assert_eq!(c.push(Dir::Right, Bit(true), r), context(4, 0b11011));
}

#[test]
fn a_push_keeps_the_state() {
    let r = Radius(3);
    for state in 1..=5u8 {
        assert_eq!(context(state, 0b1010101).push_left(Bit(false), r).state, State(state));
        assert_eq!(context(state, 0b1010101).push_right(Bit(true), r).state, State(state));
    }
}

#[test]
fn opposite_pushes_restore_the_inner_cells() {
    let r = Radius(2);
    // After a push to the right and one to the left only the cell that fell
    // off on the left is lost.
    let c = context(1, 0b11011);
    let back = c.push_right(Bit(false), r).push_left(Bit(true), r);
    assert_eq!(back, context(1, 0b11011));
    let back = c.push_right(Bit(true), r).push_left(Bit(false), r);
    assert_eq!(back, context(1, 0b11010));
}

#[test]
fn write_center_sets_and_clears_the_middle_cell() {
    let r = Radius(1);
    assert_eq!(context(1, 0b000).write_center(Bit(true), State(2), r), context(2, 0b010));
    assert_eq!(context(1, 0b111).write_center(Bit(false), State(3), r), context(3, 0b101));
    assert_eq!(context(1, 0b010).write_center(Bit(true), State(1), r), context(1, 0b010));
    assert_eq!(context(1, 0b101).write_center(Bit(false), State(5), r), context(5, 0b101));
}

#[test]
fn write_center_at_the_widest_radius() {
    let r = Radius(31);
    let all: u64 = (1 << 63) - 1;
    assert_eq!(context(1, 0).write_center(Bit(true), State(2), r), context(2, 1 << 31));
    assert_eq!(context(1, all).write_center(Bit(false), State(2), r), context(2, all - (1 << 31)));
}

#[test]
fn get_center_reads_the_middle_cell() {
    assert_eq!(context(1, 0b010).get_center(Radius(1)), Bit(true));
    assert_eq!(context(1, 0b101).get_center(Radius(1)), Bit(false));
    assert_eq!(context(1, 0b00100).get_center(Radius(2)), Bit(true));
    assert_eq!(context(1, 0b11011).get_center(Radius(2)), Bit(false));
    assert_eq!(context(1, 1 << 31).get_center(Radius(31)), Bit(true));
    assert_eq!(context(1, (1 << 30) | (1 << 32)).get_center(Radius(31)), Bit(false));
}

#[test]
fn write_then_read_gives_the_bit_back() {
    for radius in [1u8, 2, 7, 30, 31] {
        let r = Radius(radius);
        for bit in [false, true] {
            let c = context(1, 0).write_center(Bit(bit), State(2), r);
            assert_eq!(c.get_center(r), Bit(bit));
            let all = (1u64 << (2 * radius + 1)) - 1;
            let c = context(1, all).write_center(Bit(bit), State(2), r);
            assert_eq!(c.get_center(r), Bit(bit));
        }
    }
}

#[test]
fn edges_leave_the_middle_cell_out() {
    let r = Radius(2);
    let c = context(1, 0b10_1_01);
    assert_eq!(c.get_left(r), NGram(0b01));
    assert_eq!(c.get_right(r), NGram(0b10));
    let only_center = context(1, 0b00_1_00);
    assert_eq!(only_center.get_left(r), NGram(0));
    assert_eq!(only_center.get_right(r), NGram(0));
    let but_center = context(1, 0b11_0_11);
    assert_eq!(but_center.get_left(r), NGram(0b11));
    assert_eq!(but_center.get_right(r), NGram(0b11));
}

#[test]
fn edges_at_the_widest_radius() {
    let r = Radius(31);
    let low: u64 = (1 << 31) - 1;
    assert_eq!(context(1, low).get_left(r), NGram(0x7fff_ffff));
    assert_eq!(context(1, low).get_right(r), NGram(0));
    assert_eq!(context(1, low << 32).get_left(r), NGram(0));
    assert_eq!(context(1, low << 32).get_right(r), NGram(0x7fff_ffff));
    assert_eq!(context(1, 1 << 31).get_left(r), NGram(0));
    assert_eq!(context(1, 1 << 31).get_right(r), NGram(0));
    assert_eq!(context(1, 1 << 62).get_right(r), NGram(1 << 30));
    assert_eq!(context(1, 1 << 32).get_right(r), NGram(1));
    assert_eq!(context(1, 1 << 30).get_left(r), NGram(1 << 30));
}

#[test]
fn get_follows_the_direction() {
    let r = Radius(3);
    let c = context(2, 0b110_1_001);
    assert_eq!(c.get(Dir::Left, r), c.get_left(r));
    assert_eq!(c.get(Dir::Right, r), c.get_right(r));
    assert_eq!(c.get(Dir::Left, r), NGram(0b001));
    assert_eq!(c.get(Dir::Right, r), NGram(0b110));
}

#[test]
fn a_pushed_bit_shows_at_the_near_end_of_its_edge() {
    for radius in [1u8, 2, 5, 31] {
        let r = Radius(radius);
        let c = context(1, 0);
        assert_eq!(c.push_left(Bit(true), r).get_left(r), NGram(1));
        assert_eq!(c.push_right(Bit(true), r).get_right(r), NGram(1 << (radius - 1)));
        assert_eq!(c.push_left(Bit(true), r).get_right(r), NGram(0));
        assert_eq!(c.push_right(Bit(true), r).get_left(r), NGram(0));
    }
}

#[test]
fn the_middle_cell_moves_into_the_edge_behind() {
    for radius in [1u8, 2, 5, 31] {
        let r = Radius(radius);
        let c = context(1, 0).write_center(Bit(true), State(1), r);
        assert_eq!(c.push_right(Bit(false), r).get_left(r), NGram(1 << (radius - 1)));
        assert_eq!(c.push_left(Bit(false), r).get_right(r), NGram(1));
        assert_eq!(c.push_right(Bit(false), r).get_center(r), Bit(false));
        assert_eq!(c.push_left(Bit(false), r).get_center(r), Bit(false));
    }
}

#[test]
fn an_ngram_renders_its_cells_left_to_right() {
    assert_eq!(text(NGram(0b0011).render(Radius(4))), "1100");
    assert_eq!(text(NGram(0).render(Radius(3))), "000");
    assert_eq!(text(NGram(1).render(Radius(1))), "1");
    assert_eq!(text(NGram(0b100).render(Radius(3))), "001");
    assert_eq!(text(NGram(0x7fff_ffff).render(Radius(31))), "1".repeat(31));
}

#[test]
fn a_window_renders_with_the_head_in_brackets() {
    assert_eq!(text(context(1, 0b0_0_1).render(Radius(1))), "1[A0]0");
    assert_eq!(text(context(2, 0b10_1_01).render(Radius(2))), "10[B1]01");
    assert_eq!(text(context(5, 0).render(Radius(3))), "000[E0]000");
    assert_eq!(text(context(3, 0b1_1_0).render(Radius(1))), "0[C1]1");
}
