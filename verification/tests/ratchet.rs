use wnfslib::error::FsError;
use wnfslib::private::ratchet::{ratchet_distance, PreviousRatchets, Ratchet};

fn seed(byte: u8) -> [u8; 32] {
    [byte; 32]
}

fn advanced(ratchet: &Ratchet, steps: usize) -> Ratchet {
    let mut ratchet = ratchet.clone();
    for _ in 0..steps {
        ratchet.inc();
    }
    ratchet
}

#[test]
fn zero_is_the_state_that_the_crate_makes_from_the_seed() {
    let ours = Ratchet::zero(&seed(7));
    let theirs = skip_ratchet::Ratchet::zero(seed(7));
    assert_eq!(ours.encoded(), &String::from(&theirs));
    assert!(ours.same(&Ratchet::zero(&seed(7))));
    assert!(!ours.same(&Ratchet::zero(&seed(8))));
}

#[test]
fn inc_steps_as_the_crate_steps() {
    let mut ours = Ratchet::zero(&seed(1));
    let mut theirs = skip_ratchet::Ratchet::zero(seed(1));
    let before = ours.clone();
    for _ in 0..300 {
        ours.inc();
        theirs.inc();
        assert_eq!(ours.encoded(), &String::from(&theirs));
    }
    assert!(!ours.same(&before));
}

#[test]
fn derive_key_is_the_key_of_the_crate() {
    let mut ours = Ratchet::zero(&seed(2));
    let mut theirs = skip_ratchet::Ratchet::zero(seed(2));
    assert_eq!(ours.derive_key(), theirs.derive_key());
    let first = ours.derive_key();
    ours.inc();
    theirs.inc();
    assert_eq!(ours.derive_key(), theirs.derive_key());
    assert_ne!(ours.derive_key(), first);
}

#[test]
fn a_state_reads_back_from_its_encoding() {
    let ratchet = advanced(&Ratchet::zero(&seed(3)), 5);
    let text = ratchet.encoded().clone();
    assert_eq!(text.len(), 133);
    let back = Ratchet::from_encoded(text).unwrap();
    assert!(back.same(&ratchet));
}

#[test]
fn what_is_no_encoding_gives_no_state() {
    assert!(Ratchet::from_encoded(String::new()).is_none());
    assert!(Ratchet::from_encoded("uF".to_string()).is_none());
    assert!(Ratchet::from_encoded("x".repeat(133)).is_none());
    assert!(Ratchet::from_encoded("é".repeat(133)).is_none());
    let mut almost = Ratchet::zero(&seed(3)).encoded().clone();
    almost.replace_range(0..2, "uG");
    assert!(Ratchet::from_encoded(almost).is_none());
}

#[test]
fn distance_counts_the_steps() {
    let past = Ratchet::zero(&seed(4));
    assert_eq!(ratchet_distance(&past, &past, 0), Some(0));
    assert_eq!(ratchet_distance(&past, &past, 10), Some(0));
    assert_eq!(ratchet_distance(&past, &advanced(&past, 1), 10), Some(1));
    assert_eq!(ratchet_distance(&past, &advanced(&past, 7), 10), Some(7));
    assert_eq!(ratchet_distance(&past, &advanced(&past, 300), 1_000), Some(300));
}

#[test]
fn the_budget_is_a_ceiling_on_the_search() {
    let past = Ratchet::zero(&seed(5));
    let recent = advanced(&past, 3);
    assert_eq!(ratchet_distance(&past, &recent, 2), None);
    assert_eq!(ratchet_distance(&past, &recent, 3), Some(3));
    assert_eq!(
        PreviousRatchets::new(&past, &recent, 2).err(),
        Some(FsError::NoIntermediateRatchet)
    );
    assert!(PreviousRatchets::new(&past, &recent, 3).is_ok());
}

#[test]
fn a_state_ahead_is_not_found_behind() {
    let past = Ratchet::zero(&seed(6));
    let recent = advanced(&past, 3);
    assert_eq!(ratchet_distance(&recent, &past, 1_000), None);
    assert_eq!(
        PreviousRatchets::new(&recent, &past, 1_000).err(),
        Some(FsError::NoIntermediateRatchet)
    );
}

#[test]
fn unrelated_states_have_no_intermediate_ratchet() {
    let one = Ratchet::zero(&seed(8));
    let other = Ratchet::zero(&seed(9));
    assert_eq!(
        PreviousRatchets::new(&one, &other, 2_000).err(),
        Some(FsError::NoIntermediateRatchet)
    );
}

#[test]
fn previous_states_come_newest_first_down_to_the_past_state() {
    let past = Ratchet::zero(&seed(10));
    let recent = advanced(&past, 3);
    let mut previous = PreviousRatchets::new(&past, &recent, 10).unwrap();
    assert_eq!(previous.step_count(), 3);
    assert!(previous.next().unwrap().same(&advanced(&past, 2)));
    assert!(previous.next().unwrap().same(&advanced(&past, 1)));
    assert_eq!(previous.step_count(), 1);
    assert!(previous.next().unwrap().same(&past));
    assert!(previous.next().is_none());
    assert!(previous.next().is_none());
    assert_eq!(previous.step_count(), 0);
}

#[test]
fn previous_states_of_the_same_state_are_none() {
    let state = advanced(&Ratchet::zero(&seed(11)), 4);
    let mut previous = PreviousRatchets::new(&state, &state, 0).unwrap();
    assert_eq!(previous.step_count(), 0);
    assert!(previous.next().is_none());
}

#[test]
fn previous_states_are_those_of_the_crate() {
    let old = skip_ratchet::Ratchet::zero(seed(12));
    let mut recent = old.clone();
    recent.inc_by(600);
    let theirs: Vec<String> = skip_ratchet::ratchet::PreviousIterator::new(&old, &recent, 1_000)
        .unwrap()
        .map(|r| String::from(&r))
        .collect();

    let past = Ratchet::zero(&seed(12));
    let mut previous = PreviousRatchets::new(&past, &advanced(&past, 600), 1_000).unwrap();
    let mut ours: Vec<String> = Vec::new();
    while let Some(state) = previous.next() {
        ours.push(state.encoded().clone());
    }
    assert_eq!(ours.len(), 600);
    assert_eq!(ours, theirs);
}
