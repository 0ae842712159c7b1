use prime_implicants::engine::{calculate_prime_implicants, run_rounds, sort_implicants};
use prime_implicants::implicant::Implicant;
use prime_implicants::level::{combine_level, settle_level};

fn seeds(width: usize, rows: &[usize]) -> Vec<Implicant> {
    let mut out = Vec::new();
    for &r in rows {
        out.push(Implicant::new0cube(width, r, true));
    }
    out
}

fn keys(list: &Vec<Implicant>) -> Vec<(usize, usize)> {
    let mut out = Vec::new();
    for imp in list {
        out.push((imp.ones(), imp.dashes()));
    }
    out
}

#[test]
fn primes_of_the_textbook_table() {
    let primes = calculate_prime_implicants(seeds(4, &[4, 8, 9, 10, 11, 12, 14, 15]));
    assert_eq!(keys(&primes), vec![(4, 8), (8, 3), (8, 6), (10, 5)]);
    assert_eq!(primes[0].pattern(), "-100");
    assert_eq!(primes[1].pattern(), "10--");
    assert_eq!(primes[2].pattern(), "1--0");
    assert_eq!(primes[3].pattern(), "1-1-");
    assert_eq!(primes[0].rows(), &vec![4, 12]);
    assert_eq!(primes[1].rows(), &vec![8, 9, 10, 11]);
    assert_eq!(primes[2].rows(), &vec![8, 10, 12, 14]);
    assert_eq!(primes[3].rows(), &vec![10, 11, 14, 15]);
    for p in &primes {
        assert!(p.is_final());
        assert!(!p.used());
        assert_eq!(p.care(), None);
        assert_eq!(p.width(), 4);
    }
    assert_eq!(primes[3].num_ones(), 2);
    assert_eq!(primes[3].num_dashes(), 2);
}

#[test]
fn primes_do_not_depend_on_the_order_of_the_seeds() {
    let forward = calculate_prime_implicants(seeds(4, &[4, 8, 9, 10, 11, 12, 14, 15]));
    let backward = calculate_prime_implicants(seeds(4, &[15, 14, 12, 11, 10, 9, 8, 4]));
    let mixed = calculate_prime_implicants(seeds(4, &[10, 4, 15, 8, 12, 9, 14, 11]));
    assert_eq!(keys(&forward), keys(&backward));
    assert_eq!(keys(&forward), keys(&mixed));
    for k in 0..forward.len() {
        assert_eq!(forward[k].rows(), backward[k].rows());
        assert_eq!(forward[k].rows(), mixed[k].rows());
    }
}

#[test]
fn two_runs_give_the_same_list() {
    let rows = [0usize, 1, 2, 5, 6, 7];
    let first = calculate_prime_implicants(seeds(3, &rows));
    let second = calculate_prime_implicants(seeds(3, &rows));
    assert_eq!(first.len(), second.len());
    for k in 0..first.len() {
        assert_eq!(first[k].ones(), second[k].ones());
        assert_eq!(first[k].dashes(), second[k].dashes());
        assert_eq!(first[k].num_ones(), second[k].num_ones());
        assert_eq!(first[k].num_dashes(), second[k].num_dashes());
        assert_eq!(first[k].rows(), second[k].rows());
        assert_eq!(first[k].care(), second[k].care());
        assert_eq!(first[k].is_final(), second[k].is_final());
        assert_eq!(first[k].pattern(), second[k].pattern());
    }
}

#[test]
fn primes_of_a_cyclic_table() {
    let primes = calculate_prime_implicants(seeds(3, &[0, 1, 2, 5, 6, 7]));
    assert_eq!(keys(&primes), vec![(0, 1), (0, 2), (1, 4), (2, 4), (5, 2), (6, 1)]);
    let patterns: Vec<String> = primes.iter().map(|p| p.pattern()).collect();
    assert_eq!(patterns, vec!["00-", "0-0", "-01", "-10", "1-1", "11-"]);
}

#[test]
fn a_full_table_has_the_all_dash_prime() {
    let rows: Vec<usize> = (0..8).collect();
    let primes = calculate_prime_implicants(seeds(3, &rows));
    assert_eq!(primes.len(), 1);
    assert_eq!(primes[0].pattern(), "---");
    assert_eq!(primes[0].ones(), 0);
    assert_eq!(primes[0].dashes(), 7);
    assert_eq!(primes[0].num_dashes(), 3);
    assert_eq!(primes[0].rows(), &rows);
    assert!(primes[0].is_final());
}

#[test]
fn a_full_table_takes_as_many_rounds_as_input_bits() {
    for width in 0usize..6 {
        let rows: Vec<usize> = (0..(1 << width)).collect();
        let (primes, rounds) = run_rounds(seeds(width, &rows));
        assert_eq!(rounds, width);
        assert_eq!(primes.len(), 1);
        assert_eq!(primes[0].num_dashes(), width);
    }
}

#[test]
fn no_seeds_give_no_primes_and_no_round() {
    let (primes, rounds) = run_rounds(Vec::new());
    assert!(primes.is_empty());
    assert_eq!(rounds, 0);
    assert!(calculate_prime_implicants(Vec::new()).is_empty());
}

#[test]
fn a_single_row_is_its_own_prime() {
    let mut rows = Vec::new();
    rows.push(Implicant::new0cube(3, 5, false));
    let (primes, rounds) = run_rounds(rows);
    assert_eq!(rounds, 1);
    assert_eq!(primes.len(), 1);
    assert_eq!(primes[0].ones(), 5);
    assert_eq!(primes[0].dashes(), 0);
    assert_eq!(primes[0].care(), Some(false));
    assert_eq!(primes[0].rows(), &vec![5]);
    assert!(primes[0].is_final());
    assert!(!primes[0].used());
}

#[test]
fn rows_that_do_not_combine_stay_single() {
    let primes = calculate_prime_implicants(seeds(3, &[0, 3, 5, 6]));
    assert_eq!(keys(&primes), vec![(0, 0), (3, 0), (5, 0), (6, 0)]);
    for p in &primes {
        assert_eq!(p.care(), Some(true));
        assert!(p.is_final());
    }
}

#[test]
fn rounds_stop_at_the_first_empty_level() {
    let (_, rounds) = run_rounds(seeds(4, &[4, 8, 9, 10, 11, 12, 14, 15]));
    assert_eq!(rounds, 3);
    let (_, rounds) = run_rounds(seeds(3, &[0, 1, 2, 5, 6, 7]));
    assert_eq!(rounds, 2);
    let (_, rounds) = run_rounds(seeds(3, &[0, 3, 5, 6]));
    assert_eq!(rounds, 1);
}

#[test]
fn rounds_never_exceed_the_width() {
    for width in 1usize..5 {
        for mask in 0usize..(1 << (1 << width)) {
            if width == 4 && mask % 97 != 0 {
                continue;
            }
            let rows: Vec<usize> = (0..(1 << width)).filter(|r| (mask >> r) & 1 == 1).collect();
            let (_, rounds) = run_rounds(seeds(width, &rows));
            assert!(rounds <= width);
        }
    }
}

#[test]
fn every_seed_is_covered_and_no_other_row() {
    for mask in 0usize..256 {
        let rows: Vec<usize> = (0..8).filter(|r| (mask >> r) & 1 == 1).collect();
        let primes = calculate_prime_implicants(seeds(3, &rows));
        for r in 0usize..8 {
            let covered = primes.iter().any(|p| p.rows().contains(&r));
            assert_eq!(covered, rows.contains(&r));
        }
    }
}

#[test]
fn no_two_primes_combine() {
    for mask in 0usize..256 {
        let rows: Vec<usize> = (0..8).filter(|r| (mask >> r) & 1 == 1).collect();
        let primes = calculate_prime_implicants(seeds(3, &rows));
        for a in &primes {
            for b in &primes {
                assert!(a.combine(b).is_none());
            }
        }
    }
}

#[test]
fn primes_are_listed_by_ones_count_then_ones_then_dashes() {
    let primes = calculate_prime_implicants(seeds(4, &[0, 1, 2, 4, 5, 6, 8, 9, 11, 15]));
    for k in 1..primes.len() {
        let a = (primes[k - 1].num_ones(), primes[k - 1].ones(), primes[k - 1].dashes());
        let b = (primes[k].num_ones(), primes[k].ones(), primes[k].dashes());
        assert!(a < b);
    }
}

#[test]
fn sort_implicants_orders_any_list() {
    let sorted = sort_implicants(seeds(4, &[7, 8, 3, 0, 12, 1, 3]));
    let ones: Vec<usize> = sorted.iter().map(|p| p.ones()).collect();
    assert_eq!(ones, vec![0, 1, 8, 3, 3, 12, 7]);
    assert!(sort_implicants(Vec::new()).is_empty());
}

#[test]
fn combine_level_makes_the_next_level_and_settles() {
    let mut level = seeds(3, &[0, 1, 3, 6]);
    let next = combine_level(&mut level);
    assert_eq!(keys(&next), vec![(0, 1), (1, 2)]);
    assert_eq!(next[0].rows(), &vec![0, 1]);
    assert_eq!(next[1].rows(), &vec![1, 3]);
    let used: Vec<bool> = level.iter().map(|p| p.used()).collect();
    let fin: Vec<bool> = level.iter().map(|p| p.is_final()).collect();
    assert_eq!(used, vec![true, true, true, false]);
    assert_eq!(fin, vec![false, false, false, true]);
    assert_eq!(keys(&level), vec![(0, 0), (1, 0), (3, 0), (6, 0)]);
}

#[test]
fn combine_level_keeps_each_merged_pattern_once() {
    let mut level = seeds(2, &[0, 1, 2, 3]);
    let mut pairs = combine_level(&mut level);
    assert_eq!(keys(&pairs), vec![(0, 1), (0, 2), (1, 2), (2, 1)]);
    let squares = combine_level(&mut pairs);
    assert_eq!(keys(&squares), vec![(0, 3)]);
    assert_eq!(squares[0].rows(), &vec![0, 1, 2, 3]);
    assert!(pairs.iter().all(|p| p.used() && !p.is_final()));
}

#[test]
fn combine_level_of_nothing_is_nothing() {
    let mut level: Vec<Implicant> = Vec::new();
    assert!(combine_level(&mut level).is_empty());
    assert!(level.is_empty());
}

#[test]
fn settle_level_makes_unmerged_implicants_final() {
    let mut level = seeds(3, &[1, 6]);
    settle_level(&mut level);
    assert!(level.iter().all(|p| p.is_final() && !p.used()));
}

#[test]
fn a_block_of_a_wide_table_takes_one_round_for_each_free_bit_and_one_more() {
    let rows: Vec<usize> = (0..32).collect();
    let (primes, rounds) = run_rounds(seeds(10, &rows));
    assert_eq!(rounds, 6);
    assert_eq!(primes.len(), 1);
    assert_eq!(primes[0].pattern(), "00000-----");
    assert_eq!(primes[0].rows(), &rows);
}

#[test]
fn rows_with_at_most_one_bit_pair_up_with_row_zero() {
    let mut rows = vec![0usize];
    for bit in 0..10 {
        rows.push(1 << bit);
    }
    let (primes, rounds) = run_rounds(seeds(10, &rows));
    assert_eq!(rounds, 2);
    let primes = sort_implicants(primes);
    assert_eq!(primes.len(), 10);
    for (bit, p) in primes.iter().enumerate() {
        assert_eq!(p.ones(), 0);
        assert_eq!(p.dashes(), 1 << bit);
        assert_eq!(p.rows(), &vec![0, 1 << bit]);
    }
}

#[test]
fn a_prime_lies_within_no_other_implicant_of_the_table() {
    let rows = [4usize, 8, 9, 10, 11, 12, 14, 15];
    let primes = calculate_prime_implicants(seeds(4, &rows));
    for p in &primes {
        for ones in 0usize..16 {
            for dashes in 0usize..16 {
                if ones & dashes != 0 {
                    continue;
                }
                let cover: Vec<usize> = (0..16).filter(|r| r & !dashes == ones).collect();
                let implicant = cover.iter().all(|r| rows.contains(r));
                let around = p.rows().iter().all(|r| cover.contains(r));
                if implicant && around {
                    assert_eq!((ones, dashes), (p.ones(), p.dashes()));
                }
            }
        }
    }
}
