use prime_implicants::implicant::{merge_rows, Implicant};

fn merged(a: &Implicant, b: &Implicant) -> Implicant {
    match a.combine(b) {
        Some(c) => c,
        None => panic!("the implicants do not combine"),
    }
}

#[test]
fn zero_cube_holds_its_row() {
    let imp = Implicant::new0cube(6, 0b001110, false);
    assert_eq!(imp.width(), 6);
    assert_eq!(imp.ones(), 0b001110);
    assert_eq!(imp.dashes(), 0);
    assert_eq!(imp.num_ones(), 3);
    assert_eq!(imp.num_dashes(), 0);
    assert_eq!(imp.care(), Some(false));
    assert_eq!(imp.rows(), &vec![0b001110]);
    assert!(!imp.used());
    assert!(!imp.is_final());
}

#[test]
fn zero_cube_of_an_asserted_row_cares() {
    let imp = Implicant::new0cube(6, 5, true);
    assert_eq!(imp.care(), Some(true));
    assert_eq!(imp.num_ones(), 2);
    assert_eq!(imp.rows(), &vec![5]);
}

#[test]
fn zero_cube_of_row_zero() {
    let imp = Implicant::new0cube(1, 0, true);
    assert_eq!(imp.ones(), 0);
    assert_eq!(imp.num_ones(), 0);
    assert_eq!(imp.pattern(), "0");
}

#[test]
fn combine_merges_rows_that_differ_in_one_bit() {
    let a = Implicant::new0cube(6, 0b000100, true);
    let b = Implicant::new0cube(6, 0b000101, false);
    let c = merged(&a, &b);
    assert_eq!(c.width(), 6);
    assert_eq!(c.ones(), 0b000100);
    assert_eq!(c.dashes(), 0b000001);
    assert_eq!(c.num_ones(), 1);
    assert_eq!(c.num_dashes(), 1);
    assert_eq!(c.care(), None);
    assert_eq!(c.rows(), &vec![4, 5]);
    assert!(!c.used());
    assert!(!c.is_final());
}

#[test]
fn combine_is_symmetric() {
    let a = Implicant::new0cube(6, 0b010011, true);
    let b = Implicant::new0cube(6, 0b010111, true);
    let ab = merged(&a, &b);
    let ba = merged(&b, &a);
    assert_eq!(ab.ones(), ba.ones());
    assert_eq!(ab.dashes(), ba.dashes());
    assert_eq!(ab.rows(), ba.rows());
    assert_eq!(ab.num_ones(), ba.num_ones());
    assert_eq!(ab.num_dashes(), ba.num_dashes());
    assert_eq!(ab.ones(), 0b010011);
    assert_eq!(ab.dashes(), 0b000100);
    assert_eq!(ab.rows(), &vec![0b010011, 0b010111]);
}

#[test]
fn combine_keeps_the_lower_count_of_ones() {
    let a = Implicant::new0cube(4, 0b1110, true);
    let b = Implicant::new0cube(4, 0b0110, true);
    let c = merged(&a, &b);
    assert_eq!(c.num_ones(), 2);
    assert_eq!(c.ones(), 0b0110);
    assert_eq!(c.dashes(), 0b1000);
    assert_eq!(c.rows(), &vec![6, 14]);
}

#[test]
fn combine_covers_the_rows_of_both_and_no_other() {
    let a = merged(&Implicant::new0cube(4, 8, true), &Implicant::new0cube(4, 10, true));
    let b = merged(&Implicant::new0cube(4, 9, true), &Implicant::new0cube(4, 11, true));
    let c = merged(&a, &b);
    for r in 0usize..16 {
        let in_a = a.rows().contains(&r);
        let in_b = b.rows().contains(&r);
        assert_eq!(c.rows().contains(&r), in_a || in_b);
    }
    assert_eq!(c.rows(), &vec![8, 9, 10, 11]);
    assert_eq!(c.ones(), 0b1000);
    assert_eq!(c.dashes(), 0b0011);
    assert_eq!(c.num_dashes(), 2);
    assert_eq!(c.num_ones(), 1);
}

#[test]
fn combine_interleaves_rows_in_ascending_order() {
    let low = merged(&Implicant::new0cube(3, 0, true), &Implicant::new0cube(3, 4, true));
    let high = merged(&Implicant::new0cube(3, 2, true), &Implicant::new0cube(3, 6, true));
    let c = merged(&high, &low);
    assert_eq!(c.rows(), &vec![0, 2, 4, 6]);
    assert_eq!(c.pattern(), "--0");
}

#[test]
fn combine_refuses_equal_counts_of_ones() {
    let a = Implicant::new0cube(6, 0b000101, true);
    let b = Implicant::new0cube(6, 0b000110, true);
    assert!(a.combine(&b).is_none());
    assert!(b.combine(&a).is_none());
}

#[test]
fn combine_refuses_an_implicant_with_itself() {
    let a = Implicant::new0cube(6, 0b000101, true);
    let b = Implicant::new0cube(6, 0b000101, true);
    assert!(a.combine(&b).is_none());
}

#[test]
fn combine_refuses_rows_that_differ_in_three_bits() {
    let a = Implicant::new0cube(6, 0b000001, true);
    let b = Implicant::new0cube(6, 0b000110, true);
    assert!(a.combine(&b).is_none());
    assert!(b.combine(&a).is_none());
}

#[test]
fn combine_refuses_different_dashes() {
    let a = merged(&Implicant::new0cube(4, 0b0000, true), &Implicant::new0cube(4, 0b0001, true));
    let b = merged(&Implicant::new0cube(4, 0b0100, true), &Implicant::new0cube(4, 0b0110, true));
    assert_eq!(a.num_ones() + 1, b.num_ones());
    assert!(a.combine(&b).is_none());
    assert!(b.combine(&a).is_none());
}

#[test]
fn combine_refuses_a_single_row_with_a_pair() {
    let a = Implicant::new0cube(4, 0b0000, true);
    let b = merged(&Implicant::new0cube(4, 0b0001, true), &Implicant::new0cube(4, 0b0011, true));
    assert!(a.combine(&b).is_none());
    assert!(b.combine(&a).is_none());
}

#[test]
fn merge_rows_unites_ascending_lists() {
    assert_eq!(merge_rows(&vec![1, 4, 9], &vec![2, 3, 10, 11]), vec![1, 2, 3, 4, 9, 10, 11]);
    assert_eq!(merge_rows(&vec![], &vec![5]), vec![5]);
    assert_eq!(merge_rows(&vec![5], &vec![]), vec![5]);
    assert_eq!(merge_rows(&vec![], &vec![]), Vec::<usize>::new());
}

#[test]
fn merge_rows_keeps_a_common_row_once() {
    assert_eq!(merge_rows(&vec![1, 2, 3], &vec![2, 3, 4]), vec![1, 2, 3, 4]);
    assert_eq!(merge_rows(&vec![7], &vec![7]), vec![7]);
}

#[test]
fn pattern_shows_zeros_ones_and_dashes_from_the_highest_bit() {
    let a = Implicant::new0cube(6, 0b010011, true);
    assert_eq!(a.pattern(), "010011");
    let b = merged(&Implicant::new0cube(6, 0b100001, true), &Implicant::new0cube(6, 0b100011, true));
    assert_eq!(b.pattern(), "1000-1");
    let c = merged(&Implicant::new0cube(4, 4, true), &Implicant::new0cube(4, 12, true));
    assert_eq!(c.pattern(), "-100");
}

#[test]
fn pattern_has_the_width_of_the_table() {
    assert_eq!(Implicant::new0cube(9, 1, true).pattern(), "000000001");
    assert_eq!(Implicant::new0cube(0, 0, true).pattern(), "");
    assert_eq!(Implicant::new0cube(31, 1 << 30, true).pattern().len(), 31);
}

#[test]
fn implicants_are_equal_by_ones_and_dashes() {
    let a = Implicant::new0cube(6, 5, true);
    let b = Implicant::new0cube(6, 5, false);
    let c = Implicant::new0cube(6, 7, true);
    assert!(a == b);
    assert!(a != c);
    let ab = merged(&Implicant::new0cube(3, 0, true), &Implicant::new0cube(3, 1, true));
    let zero = Implicant::new0cube(3, 0, true);
    assert!(ab != zero);
}

#[test]
fn precedes_orders_by_count_of_ones_then_ones_then_dashes() {
    let one = Implicant::new0cube(4, 0b1000, true);
    let two = Implicant::new0cube(4, 0b0011, true);
    assert!(one.precedes(&two));
    assert!(!two.precedes(&one));
    let low = Implicant::new0cube(4, 0b0100, true);
    assert!(low.precedes(&one));
    assert!(!one.precedes(&low));
    assert!(!one.precedes(&one));
    let d3 = merged(&merged(&Implicant::new0cube(4, 8, true), &Implicant::new0cube(4, 9, true)),
        &merged(&Implicant::new0cube(4, 10, true), &Implicant::new0cube(4, 11, true)));
    let d6 = merged(&merged(&Implicant::new0cube(4, 8, true), &Implicant::new0cube(4, 10, true)),
        &merged(&Implicant::new0cube(4, 12, true), &Implicant::new0cube(4, 14, true)));
    assert_eq!(d3.ones(), d6.ones());
    assert!(d3.precedes(&d6));
    assert!(!d6.precedes(&d3));
}

#[test]
fn to_string_reports_a_single_row() {
    let care = Implicant::new0cube(6, 5, true);
    assert_eq!(care.to_string(), "Implicant( 1s:2 -s:0 000101* m5 )");
    let free = Implicant::new0cube(6, 12, false);
    assert_eq!(free.to_string(), "Implicant( 1s:2 -s:0 001100* m12 DONTCARE )");
    let zero = Implicant::new0cube(6, 0, true);
    assert_eq!(zero.to_string(), "Implicant( 1s:0 -s:0 000000* m0 )");
}

#[test]
fn to_string_reports_a_merged_group() {
    let c = merged(&Implicant::new0cube(6, 4, true), &Implicant::new0cube(6, 5, false));
    assert_eq!(c.to_string(), "Implicant( 1s:1 -s:1 00010-* m(4,5,) )");
    let wide = merged(
        &merged(&Implicant::new0cube(9, 256, true), &Implicant::new0cube(9, 257, true)),
        &merged(&Implicant::new0cube(9, 384, true), &Implicant::new0cube(9, 385, true)),
    );
    assert_eq!(wide.to_string(), "Implicant( 1s:1 -s:2 1-000000-* m(256,257,384,385,) )");
}

#[test]
fn minterms_lists_the_rows() {
    assert_eq!(Implicant::new0cube(6, 63, true).minterms(), "m63");
    let c = merged(&Implicant::new0cube(4, 10, true), &Implicant::new0cube(4, 11, false));
    assert_eq!(c.minterms(), "m(10,11,)");
}

#[test]
fn clone_keeps_every_field() {
    let c = merged(&Implicant::new0cube(6, 4, true), &Implicant::new0cube(6, 5, false));
    let d = c.clone();
    assert_eq!(d.width(), c.width());
    assert_eq!(d.ones(), c.ones());
    assert_eq!(d.dashes(), c.dashes());
    assert_eq!(d.num_ones(), c.num_ones());
    assert_eq!(d.num_dashes(), c.num_dashes());
    assert_eq!(d.care(), c.care());
    assert_eq!(d.rows(), c.rows());
    assert_eq!(d.used(), c.used());
    assert_eq!(d.is_final(), c.is_final());
    let z = Implicant::new0cube(6, 12, false).clone();
    assert_eq!(z.care(), Some(false));
    assert_eq!(z.rows(), &vec![12]);
}
