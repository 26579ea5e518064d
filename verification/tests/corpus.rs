use skillexec::corpus::{self, Attempt, Ledger, GIB};
use skillexec::fuzz::{self, Rng};
use skillexec::sig::TrustPolicy;
use skillexec::skill::Skill;

#[test]
fn a_reservation_that_fits_is_admitted_and_one_that_does_not_is_refused() {
    let mut b = Ledger::new(0, 1);
    assert_eq!(b.try_reserve(GIB / 2), Attempt::Granted);
    assert_eq!(b.try_reserve(GIB / 2), Attempt::Granted);
    // Nothing is on disk yet, so this is contention rather than a spent budget.
    assert_eq!(b.try_reserve(1), Attempt::Contended);
    assert!(!b.is_full());
}

#[test]
fn a_refused_reservation_is_not_left_charged() {
    let mut b = Ledger::new(0, 1);
    assert_eq!(b.try_reserve(GIB), Attempt::Granted);
    assert_eq!(b.try_reserve(1), Attempt::Contended);
    b.release(GIB);
    assert_eq!(b.try_reserve(GIB), Attempt::Granted);
}

#[test]
fn committing_replaces_the_guess_with_what_was_really_used() {
    let mut b = Ledger::new(0, 1);
    let guess = GIB / 2;
    assert_eq!(b.try_reserve(guess), Attempt::Granted);
    assert!(b.commit(guess, 1024));
    assert_eq!((b.charged, b.used), (1024, 1024));
    assert_eq!(b.try_reserve(GIB - 1024), Attempt::Granted);
}

#[test]
fn a_repo_that_beats_its_guess_is_refused_rather_than_kept() {
    let mut b = Ledger::new(0, 1);
    let guess = GIB / 2;
    assert_eq!(b.try_reserve(guess), Attempt::Granted);
    assert!(!b.commit(guess, GIB + 1));
    assert_eq!((b.charged, b.used), (0, 0));
    assert!(b.is_full(), "past the ceiling on disk is terminal");
}

#[test]
fn a_spent_budget_is_terminal_and_a_contended_one_is_not() {
    let mut b = Ledger::new(0, 1);
    assert_eq!(b.try_reserve(GIB), Attempt::Granted);
    assert!(b.commit(GIB, GIB));
    assert_eq!(b.try_reserve(1), Attempt::Spent);
    assert!(b.is_full(), "bytes on disk reached the ceiling");
}

#[test]
fn a_resumed_run_counts_what_is_already_on_disk() {
    let mut b = Ledger::new(4096, 1);
    assert_eq!(b.charged, 4096);
    assert_ne!(b.try_reserve(GIB), Attempt::Granted, "the resumed bytes must leave no room for a full budget");
}

#[test]
fn admissions_in_any_order_never_exceed_the_ceiling() {
    let mut b = Ledger::new(0, 1);
    let granted = (0..64).filter(|_| b.try_reserve(GIB / 8) == Attempt::Granted).count();
    assert_eq!(granted, 8);
    assert!(b.used <= b.ceiling);
}

#[test]
fn a_huge_budget_saturates() {
    assert_eq!(Ledger::new(0, u64::MAX).ceiling, u64::MAX);
}

#[test]
fn a_flag_reads_the_argument_after_its_first_occurrence() {
    let args: Vec<String> = ["clone", "--jobs", "4", "--jobs", "9", "--dest"].iter().map(|s| s.to_string()).collect();
    assert_eq!(corpus::flag(&args, "--jobs"), Some("4".to_string()));
    assert_eq!(corpus::flag(&args, "--dest"), None);
    assert_eq!(corpus::flag(&args, "--list"), None);
}

#[test]
fn the_generator_replays_from_its_seed() {
    let mut a = Rng { state: 0x5EED_1235 };
    let mut b = Rng { state: 0x5EED_1235 };
    for _ in 0..16 {
        assert_eq!(a.next(), b.next());
    }
    let mut x: u64 = 0x5EED_1235;
    x ^= x << 13;
    x ^= x >> 7;
    x ^= x << 17;
    let mut c = Rng { state: 0x5EED_1235 };
    assert_eq!(c.next(), x.wrapping_mul(0x2545_F491_4F6C_DD1D));
    assert_eq!(c.state, x);
    assert!(c.below(10) < 10);
    assert_eq!(c.below(0), 0);
}

#[test]
fn a_mutation_never_exceeds_its_cap_and_every_input_is_survived() {
    let seeds = fuzz::seeds();
    assert_eq!(seeds.len(), 2);
    for s in &seeds {
        assert!(fuzz::exercise(s), "a seed must be accepted");
    }
    let mut rng = Rng { state: 0x5EED_1235 };
    for i in 0..300 {
        let base = &seeds[i % seeds.len()];
        let mut input = fuzz::mutate(&mut rng, base, 4096);
        assert!(input.len() <= 4096);
        if i % 2 == 0 {
            fuzz::recommit(&mut input);
        }
        fuzz::exercise(&input);
    }
}

#[test]
fn recommitting_makes_the_manifest_digest_match_again() {
    let mut bytes = fuzz::seeds().remove(0);
    let off = u32::from_le_bytes(bytes[0x14..0x18].try_into().unwrap()) as usize;
    bytes[off + 1] ^= 0x01;
    assert!(Skill::open(&bytes, &TrustPolicy::permissive()).is_err());
    fuzz::recommit(&mut bytes);
    let len = u32::from_le_bytes(bytes[0x18..0x1C].try_into().unwrap()) as usize;
    assert_eq!(&bytes[0x20..0x40], blake3::hash(&bytes[off..off + len]).as_bytes());
}

#[test]
fn a_listing_names_repositories_with_their_sizes() {
    let text = "owner/alpha\t1200\n  owner/beta \t\r\n\n\t77\nowner/gamma\t+15\textra\r\nowner/delta\tlots\nowner/eps";
    let got = corpus::parse_listing(text);
    let want: Vec<(String, u64)> = vec![
        ("owner/alpha".to_string(), 1200),
        ("owner/beta".to_string(), 0),
        ("owner/gamma".to_string(), 15),
        ("owner/delta".to_string(), 0),
        ("owner/eps".to_string(), 0),
    ];
    assert_eq!(got, want);
}

#[test]
fn a_listed_size_that_overflows_is_unknown() {
    let got = corpus::parse_listing("big\t18446744073709551616\nfits\t18446744073709551615\n");
    assert_eq!(got, vec![("big".to_string(), 0), ("fits".to_string(), u64::MAX)]);
}

#[test]
fn an_empty_listing_names_nothing() {
    assert!(corpus::parse_listing("").is_empty());
    assert!(corpus::parse_listing("\n\r\n  \n").is_empty());
}

#[test]
fn a_repository_clones_into_a_flat_directory() {
    assert_eq!(corpus::repo_dir("owner/name"), "owner__name");
    assert_eq!(corpus::repo_dir("a/b/c"), "a__b__c");
    assert_eq!(corpus::repo_dir("plain"), "plain");
}

#[test]
fn a_clone_reserves_its_listed_size_or_the_cap() {
    assert_eq!(corpus::clone_reservation(10, 400_000), Some(10 * 1024));
    assert_eq!(corpus::clone_reservation(0, 400_000), Some(400_000 * 1024));
    assert_eq!(corpus::clone_reservation(400_001, 400_000), None);
    assert_eq!(corpus::clone_reservation(u64::MAX, u64::MAX), Some(u64::MAX));
}

#[test]
fn the_first_copy_of_each_content_is_kept() {
    let a = corpus::content_digest(b"alpha");
    let b = corpus::content_digest(b"beta");
    assert_ne!(a, b);
    assert_eq!(a, corpus::content_digest(b"alpha"));
    let keep = corpus::first_copies(&vec![a, b, a, a, b]);
    assert_eq!(keep, vec![true, true, false, false, false]);
    assert!(corpus::first_copies(&Vec::new()).is_empty());
}

#[test]
fn content_already_held_elsewhere_is_dropped() {
    let a = corpus::content_digest(b"alpha");
    let b = corpus::content_digest(b"beta");
    let c = corpus::content_digest(b"gamma");
    assert_eq!(corpus::also_in(&vec![a, b, c], &vec![c, a]), vec![true, false, true]);
    assert_eq!(corpus::also_in(&vec![a], &Vec::new()), vec![false]);
}

#[test]
fn digests_that_share_a_bucket_are_still_told_apart() {
    let mut x = [0u8; 32];
    let mut y = [0u8; 32];
    x[31] = 1;
    y[31] = 2;
    assert_eq!(corpus::first_copies(&vec![x, y, x]), vec![true, true, false]);
    assert_eq!(corpus::also_in(&vec![x, y], &vec![y]), vec![false, true]);
}
