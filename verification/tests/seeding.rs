use prime_implicants::engine::calculate_prime_implicants;
use prime_implicants::implicant::Implicant;
use prime_implicants::rules::{decompose, decompose2, next_gen, Output};
use prime_implicants::seeding::{derives_from_dont_care, prime_implicants, seed_implicants, tabulate};

fn six_bit_seeds() -> Vec<Implicant> {
    seed_implicants(6, &tabulate(6, decompose2))
}

#[test]
fn tabulate_classifies_every_row_in_order() {
    let table = tabulate(6, decompose2);
    assert_eq!(table.len(), 64);
    for n in 0usize..64 {
        assert_eq!(table[n], decompose2(n));
    }
    let table = tabulate(9, decompose);
    assert_eq!(table.len(), 512);
    for n in 0usize..512 {
        assert_eq!(table[n], decompose(n));
    }
}

#[test]
fn tabulate_calls_the_classifier_once_for_each_row() {
    let calls = std::cell::RefCell::new(Vec::new());
    let table = tabulate(3, |n: usize| {
        calls.borrow_mut().push(n);
        if n % 2 == 0 { Output::Alive } else { Output::Dead }
    });
    assert_eq!(calls.into_inner(), vec![0, 1, 2, 3, 4, 5, 6, 7]);
    assert_eq!(table.len(), 8);
    assert_eq!(table[4], Output::Alive);
    assert_eq!(table[5], Output::Dead);
}

#[test]
fn tabulate_of_width_zero_has_one_row() {
    let table = tabulate(0, |_n: usize| Output::DontCare);
    assert_eq!(table, vec![Output::DontCare]);
}

#[test]
fn seeding_skips_dead_rows() {
    let zerocubes = six_bit_seeds();
    let rows: Vec<usize> = zerocubes.iter().map(|z| z.ones()).collect();
    assert_eq!(
        rows,
        vec![
            5, 6, 7, 12, 13, 14, 15, 19, 20, 21, 28, 29, 30, 31, 33, 34, 35, 44, 45, 46, 47, 48,
            49, 60, 61, 62, 63
        ]
    );
    assert!(!rows.contains(&0b000011));
    assert!(!rows.contains(&0b000010));
    for n in 0usize..64 {
        assert_eq!(rows.contains(&n), decompose2(n) != Output::Dead);
    }
}

#[test]
fn seeding_keeps_a_row_with_three_neighbors() {
    let zerocubes = six_bit_seeds();
    let seed = zerocubes.iter().find(|z| z.ones() == 0b000110);
    assert!(seed.is_some());
    assert_eq!(seed.unwrap().care(), Some(true));
}

#[test]
fn seeding_marks_impossible_rows_as_dont_care() {
    let zerocubes = six_bit_seeds();
    let seed = zerocubes.iter().find(|z| z.ones() == 0b001110).unwrap();
    assert_eq!(seed.care(), Some(false));
    assert_eq!(seed.rows(), &vec![0b001110]);
    assert_eq!(seed.dashes(), 0);
    assert_eq!(seed.num_ones(), 3);
    assert_eq!(seed.width(), 6);
    assert!(!seed.is_final());
    for z in &zerocubes {
        assert_eq!(z.care(), Some(decompose2(z.ones()) == Output::Alive));
        assert_eq!(z.rows(), &vec![z.ones()]);
        assert_eq!(z.num_dashes(), 0);
    }
}

#[test]
fn seeding_an_all_dead_table_gives_nothing() {
    let table = vec![Output::Dead; 8];
    assert!(seed_implicants(3, &table).is_empty());
    assert!(prime_implicants(3, &table).is_empty());
}

#[test]
fn primes_of_the_six_bit_table() {
    let primes = calculate_prime_implicants(six_bit_seeds());
    let patterns: Vec<String> = primes.iter().map(|p| p.pattern()).collect();
    assert_eq!(
        patterns,
        vec![
            "00-1-1", "0--101", "00-11-", "--11--", "01-10-", "1000-1", "1-0001", "10001-",
            "11000-", "010011"
        ]
    );
    assert_eq!(primes[0].rows(), &vec![5, 7, 13, 15]);
    assert_eq!(primes[1].rows(), &vec![5, 13, 21, 29]);
    assert_eq!(primes[2].rows(), &vec![6, 7, 14, 15]);
    assert_eq!(
        primes[3].rows(),
        &vec![12, 13, 14, 15, 28, 29, 30, 31, 44, 45, 46, 47, 60, 61, 62, 63]
    );
    assert_eq!(primes[4].rows(), &vec![20, 21, 28, 29]);
    assert_eq!(primes[5].rows(), &vec![33, 35]);
    assert_eq!(primes[6].rows(), &vec![33, 49]);
    assert_eq!(primes[7].rows(), &vec![34, 35]);
    assert_eq!(primes[8].rows(), &vec![48, 49]);
    assert_eq!(primes[9].rows(), &vec![19]);
    assert_eq!(primes[9].care(), Some(true));
    assert_eq!(primes[3].care(), None);
    assert!(primes.iter().all(|p| p.is_final() && p.width() == 6));
}

#[test]
fn prime_implicants_runs_seeding_and_engine() {
    let table = tabulate(6, decompose2);
    let direct = prime_implicants(6, &table);
    let stepwise = calculate_prime_implicants(seed_implicants(6, &table));
    assert_eq!(direct.len(), stepwise.len());
    for k in 0..direct.len() {
        assert!(direct[k] == stepwise[k]);
        assert_eq!(direct[k].rows(), stepwise[k].rows());
    }
}

#[test]
fn primes_cover_every_row_that_is_not_dead_and_no_dead_row() {
    let table = tabulate(6, decompose2);
    let primes = prime_implicants(6, &table);
    for r in 0usize..64 {
        let covered = primes.iter().any(|p| p.rows().contains(&r));
        assert_eq!(covered, table[r] != Output::Dead);
    }
}

#[test]
fn primes_of_the_nine_bit_table_cover_the_live_rows() {
    let table = tabulate(9, decompose);
    let primes = prime_implicants(9, &table);
    for r in 0usize..512 {
        let covered = primes.iter().any(|p| p.rows().contains(&r));
        assert_eq!(covered, table[r] == Output::Alive);
    }
    for p in &primes {
        assert_eq!(p.pattern().len(), 9);
        assert!(p.is_final());
    }
}

#[test]
fn the_chosen_cover_is_made_of_primes() {
    let primes = calculate_prime_implicants(six_bit_seeds());
    let patterns: Vec<String> = primes.iter().map(|p| p.pattern()).collect();
    let chosen = ["010011", "1000-1", "10001-", "11000-", "0--101", "00-11-", "01-10-"];
    for term in chosen {
        assert!(patterns.iter().any(|p| p == term));
    }
    for n in 0usize..64 {
        let hit = primes
            .iter()
            .any(|p| chosen.contains(&p.pattern().as_str()) && p.rows().contains(&n));
        assert_eq!(next_gen(n) == Output::Alive, hit);
    }
}

#[test]
fn only_the_impossible_block_derives_from_dont_care_rows() {
    let table = tabulate(6, decompose2);
    let primes = prime_implicants(6, &table);
    for p in &primes {
        assert_eq!(derives_from_dont_care(p, &table), p.pattern() == "--11--");
    }
}

#[test]
fn a_dont_care_seed_derives_from_dont_care_rows() {
    let table = tabulate(6, decompose2);
    assert!(derives_from_dont_care(&Implicant::new0cube(6, 0b001110, false), &table));
    assert!(!derives_from_dont_care(&Implicant::new0cube(6, 0b000101, true), &table));
}
