use proof_of_history::hash;
use proof_of_history::poh::{verify, MalformedEntry, Poh, PohEntry};
use std::time::Duration;

fn digest(byte: u8) -> hash::Hash {
    hash::Hash::new([byte; 32])
}

/// Three recorded mixins with hashes in between and one tick, from the zero digest.
fn sample() -> (hash::Hash, Vec<PohEntry>) {
    let start = hash::Hash::default();
    let mut poh = Poh::new(start, Some(Duration::from_nanos(10)));
    let mut entries = Vec::new();
    poh.hash();
    poh.hash();
    entries.push(poh.record(digest(1)));
    poh.hash();
    entries.push(poh.tick_at(10).unwrap());
    entries.push(poh.record(digest(2)));
    for _ in 0..5 {
        poh.hash();
    }
    entries.push(poh.record(digest(3)));
    (start, entries)
}

#[test]
#[should_panic]
fn test_poh_verify_assert() {
    verify(
        hash::Hash::default(),
        &[PohEntry { num_hashes: 0, id: hash::Hash::default(), mixin: None }],
    )
    .unwrap();
}

#[test]
fn entry_without_hashes_is_malformed() {
    let res = verify(
        hash::Hash::default(),
        &[PohEntry { num_hashes: 0, id: hash::Hash::default(), mixin: None }],
    );
    assert_eq!(res, Err(MalformedEntry { index: 0 }));
}

#[test]
fn no_entries_are_valid() {
    assert_eq!(verify(hash::Hash::default(), &[]), Ok(true));
    assert_eq!(verify(digest(9), &[]), Ok(true));
}

#[test]
fn recorded_entry_verifies() {
    let start = hash::Hash::default();
    let m = digest(0x5a);
    let mut poh = Poh::new(start, None);
    poh.hash();
    poh.hash();
    poh.hash();
    let entry = poh.record(m);
    assert_eq!(entry.num_hashes, 4);
    assert_eq!(verify(start, &[entry]), Ok(true));
}

#[test]
fn entry_written_by_hand_verifies() {
    let start = hash::Hash::default();
    let m = digest(0x5a);
    let h1 = hash::hash(start.as_bytes());
    let h2 = hash::hash(h1.as_bytes());
    let with_mixin = PohEntry {
        num_hashes: 3,
        id: hash::hashv(&[h2.as_bytes(), m.as_bytes()]),
        mixin: Some(m),
    };
    let without = PohEntry { num_hashes: 2, id: h2, mixin: None };
    assert_eq!(verify(start, &[with_mixin]), Ok(true));
    assert_eq!(verify(start, &[without]), Ok(true));
    let next = PohEntry { num_hashes: 1, id: hash::hash(h2.as_bytes()), mixin: None };
    assert_eq!(verify(start, &[without, next]), Ok(true));
}

#[test]
fn flipped_mixin_bit_before_verification_is_caught() {
    let start = hash::Hash::default();
    let m = digest(0x5a);
    let mut poh = Poh::new(start, None);
    poh.hash();
    poh.hash();
    poh.hash();
    let mut entry = poh.record(m);
    let mut flipped = m;
    flipped.0[0] ^= 0x80;
    entry.mixin = Some(flipped);
    assert_eq!(verify(start, &[entry]), Ok(false));
}

#[test]
fn flipped_mixin_bit_before_recording_is_caught() {
    let start = hash::Hash::default();
    let m = digest(0x5a);
    let mut flipped = m;
    flipped.0[31] ^= 0x01;
    let mut poh = Poh::new(start, None);
    poh.hash();
    poh.hash();
    poh.hash();
    let mut entry = poh.record(flipped);
    assert_eq!(verify(start, &[entry]), Ok(true));
    entry.mixin = Some(m);
    assert_eq!(verify(start, &[entry]), Ok(false));
}

#[test]
fn generated_entries_verify() {
    let (start, entries) = sample();
    assert_eq!(entries.len(), 4);
    assert_eq!(verify(start, &entries), Ok(true));
}

#[test]
fn long_run_verifies() {
    let start = digest(0xee);
    let mut poh = Poh::new(start, Some(Duration::from_nanos(7)));
    let mut entries = Vec::new();
    let mut now: u128 = 0;
    for round in 0u8..50 {
        for _ in 0..(round % 5) + 1 {
            poh.hash();
        }
        now += 3;
        if let Some(tick) = poh.tick_at(now) {
            entries.push(tick);
        }
        if round % 3 == 0 {
            entries.push(poh.record(digest(round)));
        }
    }
    assert!(entries.iter().any(|e| e.mixin.is_none()));
    assert!(entries.iter().any(|e| e.mixin.is_some()));
    assert!(entries.iter().all(|e| e.num_hashes != 0));
    assert_eq!(verify(start, &entries), Ok(true));
}

#[test]
fn verification_starts_from_the_given_hash() {
    let (start, entries) = sample();
    assert_eq!(verify(digest(1), &entries), Ok(false));
    assert_eq!(verify(entries[0].id, &entries[1..]), Ok(true));
    assert_eq!(verify(start, &entries[1..]), Ok(false));
}

#[test]
fn idle_tick_among_generated_entries_is_malformed() {
    let start = hash::Hash::default();
    let mut poh = Poh::new(start, Some(Duration::ZERO));
    poh.hash();
    let first = poh.record(digest(1));
    let idle = poh.tick_at(0).unwrap();
    assert_eq!(idle.num_hashes, 0);
    poh.hash();
    let last = poh.record(digest(2));
    assert_eq!(verify(start, &[first, idle, last]), Err(MalformedEntry { index: 1 }));
    assert_eq!(verify(start, &[first, last]), Ok(true));
}

#[test]
fn changed_id_is_caught() {
    let (start, entries) = sample();
    for i in 0..entries.len() {
        let mut altered = entries.clone();
        altered[i].id.0[5] ^= 0x10;
        assert_eq!(verify(start, &altered), Ok(false), "entry {}", i);
    }
}

#[test]
fn changed_mixin_is_caught() {
    let (start, entries) = sample();
    for i in 0..entries.len() {
        let mut altered = entries.clone();
        altered[i].mixin = match altered[i].mixin {
            Some(mut m) => {
                m.0[0] ^= 1;
                Some(m)
            }
            None => Some(digest(0)),
        };
        assert_eq!(verify(start, &altered), Ok(false), "entry {}", i);
        altered[i].mixin = match entries[i].mixin {
            Some(_) => None,
            None => Some(entries[i].id),
        };
        assert_eq!(verify(start, &altered), Ok(false), "entry {}", i);
    }
}

#[test]
fn changed_count_is_caught() {
    let (start, entries) = sample();
    for i in 0..entries.len() {
        let mut altered = entries.clone();
        altered[i].num_hashes += 1;
        assert_eq!(verify(start, &altered), Ok(false), "entry {}", i);
        if entries[i].num_hashes > 1 {
            altered[i].num_hashes = entries[i].num_hashes - 1;
            assert_eq!(verify(start, &altered), Ok(false), "entry {}", i);
        }
        altered[i].num_hashes = 0;
        assert_eq!(verify(start, &altered), Err(MalformedEntry { index: i }), "entry {}", i);
    }
}

#[test]
fn dropped_entry_is_caught_unless_it_is_the_last() {
    let (start, entries) = sample();
    let last = entries.len() - 1;
    for i in 0..last {
        let mut altered = entries.clone();
        altered.remove(i);
        assert_eq!(verify(start, &altered), Ok(false), "entry {}", i);
    }
    let mut shorter = entries.clone();
    shorter.remove(last);
    assert_eq!(verify(start, &shorter), Ok(true));
}

#[test]
fn duplicated_entry_is_caught() {
    let (start, entries) = sample();
    for i in 0..entries.len() {
        for j in 0..=entries.len() {
            let mut altered = entries.clone();
            altered.insert(j, entries[i]);
            assert_eq!(verify(start, &altered), Ok(false), "copy of {} at {}", i, j);
        }
    }
}

#[test]
fn swapped_entries_are_caught() {
    let (start, entries) = sample();
    for i in 0..entries.len() {
        for j in i + 1..entries.len() {
            let mut altered = entries.clone();
            altered.swap(i, j);
            assert_eq!(verify(start, &altered), Ok(false), "{} and {}", i, j);
        }
    }
}

#[test]
fn wrong_branch_is_a_mismatch() {
    let start = hash::Hash::default();
    let m = digest(4);
    let h1 = hash::hash(start.as_bytes());
    let single = hash::hash(h1.as_bytes());
    let combined = hash::hashv(&[h1.as_bytes(), m.as_bytes()]);
    assert_eq!(verify(start, &[PohEntry { num_hashes: 2, id: single, mixin: None }]), Ok(true));
    assert_eq!(verify(start, &[PohEntry { num_hashes: 2, id: combined, mixin: Some(m) }]), Ok(true));
    assert_eq!(verify(start, &[PohEntry { num_hashes: 2, id: single, mixin: Some(m) }]), Ok(false));
    assert_eq!(verify(start, &[PohEntry { num_hashes: 2, id: combined, mixin: None }]), Ok(false));
}

#[test]
fn first_faulty_entry_decides() {
    let (start, entries) = sample();
    let mut mismatch_first = entries.clone();
    mismatch_first[1].id.0[0] ^= 1;
    mismatch_first[3].num_hashes = 0;
    assert_eq!(verify(start, &mismatch_first), Ok(false));

    let mut malformed_first = entries.clone();
    malformed_first[1].num_hashes = 0;
    malformed_first[3].id.0[0] ^= 1;
    assert_eq!(verify(start, &malformed_first), Err(MalformedEntry { index: 1 }));
}

#[test]
fn malformed_entry_is_reported_as_data() {
    let err = verify(digest(1), &[PohEntry { num_hashes: 0, id: digest(1), mixin: Some(digest(2)) }])
        .unwrap_err();
    assert_eq!(err.index, 0);
    assert_eq!(format!("{:?}", err), "MalformedEntry { index: 0 }");
}
