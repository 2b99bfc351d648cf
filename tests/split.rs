use cell_sim::field::Specimen;
use cell_sim::split::{
    sort_by_energy, split_energy, split_energy_equally, split_energy_poor_half,
    split_energy_equally_with_children, split_energy_strong_takes_all, split_energy_weak_takes_all,
    SplitPolicy,
};

fn specs(es: &[u64]) -> Vec<Specimen> {
    es.iter().map(|&energy| Specimen { energy }).collect()
}

fn energies(v: &[Specimen]) -> Vec<u64> {
    v.iter().map(|s| s.energy).collect()
}

#[test]
fn sort_orders_weakest_first() {
    assert_eq!(energies(&sort_by_energy(&specs(&[5, 1, 4, 1, 3]))), vec![1, 1, 3, 4, 5]);
    assert!(sort_by_energy(&Vec::new()).is_empty());
}

#[test]
fn weak_takes_all_gives_everything_to_the_weakest() {
    let (r, left) = split_energy_weak_takes_all(&specs(&[9, 2, 5]), 10);
    assert_eq!(energies(&r), vec![12, 5, 9]);
    assert_eq!(left, 0);
}

#[test]
fn strong_takes_all_gives_everything_to_the_strongest() {
    let (r, left) = split_energy_strong_takes_all(&specs(&[9, 2, 5]), 10);
    assert_eq!(energies(&r), vec![2, 5, 19]);
    assert_eq!(left, 0);
}

#[test]
fn equal_split_keeps_order_and_returns_remainder() {
    let (r, left) = split_energy_equally(&specs(&[9, 2, 5]), 10);
    assert_eq!(energies(&r), vec![12, 5, 8]);
    assert_eq!(left, 1);
}

#[test]
fn poor_half_serves_the_weakest_first() {
    // share 2 * 10 / 3 = 6: the weakest gets 6, the next the remaining 4
    let (r, left) = split_energy_poor_half(&specs(&[9, 2, 5]), 10);
    assert_eq!(energies(&r), vec![8, 9, 9]);
    assert_eq!(left, 0);
    // share 2 * 1 / 3 = 0: nothing is handed out
    let (r, left) = split_energy_poor_half(&specs(&[9, 2, 5]), 1);
    assert_eq!(energies(&r), vec![2, 5, 9]);
    assert_eq!(left, 1);
}

#[test]
fn split_energy_dispatches_on_policy() {
    let v = specs(&[4, 4]);
    assert_eq!(energies(&split_energy(SplitPolicy::WeakTakesAll, &v, 3).0), vec![7, 4]);
    assert_eq!(energies(&split_energy(SplitPolicy::StrongTakesAll, &v, 3).0), vec![4, 7]);
    assert_eq!(split_energy(SplitPolicy::Equal, &v, 3), (specs(&[5, 5]), 1));
    assert_eq!(split_energy(SplitPolicy::PoorHalf, &v, 3), (specs(&[7, 4]), 0));
    assert_eq!(split_energy(SplitPolicy::Equal, &Vec::new(), 3), (Vec::new(), 3));
}

#[test]
fn equal_split_with_children_halves_the_rich() {
    let (r, left) = split_energy_equally_with_children(&specs(&[9, 2, 5]), 10, 6);
    assert_eq!(energies(&r), vec![6, 4, 6, 5, 4]);
    assert_eq!(left, 1);
    let (r, _) = split_energy_equally_with_children(&specs(&[7]), 0, 6);
    assert_eq!(energies(&r), vec![3, 4]);
}

#[test]
fn splits_of_nobody_hand_nothing_out() {
    assert_eq!(split_energy_weak_takes_all(&Vec::new(), 5), (Vec::new(), 5));
    assert_eq!(split_energy_strong_takes_all(&Vec::new(), 5), (Vec::new(), 5));
    assert_eq!(split_energy_equally(&Vec::new(), 5), (Vec::new(), 5));
    assert_eq!(split_energy_poor_half(&Vec::new(), 5), (Vec::new(), 5));
}
