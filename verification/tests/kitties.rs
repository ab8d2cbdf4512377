use substratekitties::genetics::{generate_id, splice_dna};
use substratekitties::registry::Registry;
use substratekitties::types::{Error, Event, Hash256};

fn h(b: u8) -> Hash256 {
    Hash256::from_bytes(vec![b; 32]).unwrap()
}

#[test]
fn empty_registry() {
    let r = Registry::new();
    assert_eq!(r.all_kitties_count(), 0);
    assert_eq!(r.nonce(), 0);
    assert_eq!(r.owned_kitty_count(1), 0);
    assert!(r.owner_of(&h(1)).is_none());
    assert!(r.kitty(&h(1)).is_none());
    assert!(r.all_kitties_by_index(0).is_none());
    assert!(r.owned_kitty_by_index(1, 0).is_none());
}

#[test]
fn create_kitty_basics() {
    let mut r = Registry::new();
    let mut events: Vec<Event> = Vec::new();
    let seed = h(7);
    assert_eq!(r.create_kitty(1, &seed, &mut events), Ok(()));
    let id = generate_id(&seed, 1, 0);
    assert_eq!(r.all_kitties_count(), 1);
    assert_eq!(r.nonce(), 1);
    assert_eq!(r.owner_of(&id), Some(1));
    assert_eq!(r.owned_kitty_count(1), 1);
    let kitty = r.kitty(&id).unwrap();
    assert_eq!(kitty.price, 0);
    assert_eq!(kitty.gen, 0);
    assert!(kitty.dna.eq_bytes(&id));
    assert!(kitty.id.eq_bytes(&id));
    assert!(r.all_kitties_by_index(0).unwrap().eq_bytes(&id));
    assert_eq!(r.all_kitties_index(&id), Some(0));
    assert!(r.owned_kitty_by_index(1, 0).unwrap().eq_bytes(&id));
    assert_eq!(r.owned_kitty_index(&id), Some(0));
    assert_eq!(events.len(), 1);
    match &events[0] {
        Event::Created(owner, created) => {
            assert_eq!(*owner, 1);
            assert!(created.eq_bytes(&id));
        }
        _ => panic!("expected a created notification"),
    }
}

#[test]
fn create_kitty_collision_rejected() {
    let mut r = Registry::new();
    let mut events: Vec<Event> = Vec::new();
    let seed = h(7);
    assert_eq!(r.create_kitty(1, &seed, &mut events), Ok(()));
    // A seed crafted so the identifier derived at nonce 1 equals the one
    // derived from the first seed at nonce 0: the derivation mixes the nonce
    // bytes in at positions 0, 8, 16 and 24.
    let mut crafted = Vec::new();
    for i in 0..32usize {
        let nonce_byte = if i % 8 == 0 { 1u8 } else { 0u8 };
        crafted.push(7u8 ^ nonce_byte);
    }
    let seed2 = Hash256::from_bytes(crafted).unwrap();
    let first = generate_id(&seed, 1, 0);
    let second = generate_id(&seed2, 1, 1);
    assert!(first.eq_bytes(&second));
    assert_eq!(r.create_kitty(1, &seed2, &mut events), Err(Error::Collision));
    assert_eq!(r.all_kitties_count(), 1);
    assert_eq!(r.nonce(), 1);
    assert_eq!(events.len(), 1);
}

#[test]
fn set_price_flow() {
    let mut r = Registry::new();
    let mut events: Vec<Event> = Vec::new();
    let seed = h(9);
    r.create_kitty(1, &seed, &mut events).unwrap();
    let id = generate_id(&seed, 1, 0);
    assert_eq!(r.set_price(1, &id, 100, &mut events), Ok(()));
    assert_eq!(r.kitty(&id).unwrap().price, 100);
    match events.last().unwrap() {
        Event::PriceSet(owner, target, price) => {
            assert_eq!(*owner, 1);
            assert!(target.eq_bytes(&id));
            assert_eq!(*price, 100);
        }
        _ => panic!("expected a price_set notification"),
    }
    // setting the price back to 0 withdraws the asset from sale
    assert_eq!(r.set_price(1, &id, 0, &mut events), Ok(()));
    assert_eq!(r.kitty(&id).unwrap().price, 0);
}

#[test]
fn set_price_rejections() {
    let mut r = Registry::new();
    let mut events: Vec<Event> = Vec::new();
    let seed = h(9);
    r.create_kitty(1, &seed, &mut events).unwrap();
    let id = generate_id(&seed, 1, 0);
    assert_eq!(r.set_price(2, &id, 100, &mut events), Err(Error::Unauthorized));
    assert_eq!(r.set_price(2, &h(42), 100, &mut events), Err(Error::NotFound));
    assert_eq!(r.kitty(&id).unwrap().price, 0);
    assert_eq!(events.len(), 1);
}

#[test]
fn transfer_swap_and_pop() {
    // A owns three assets at per-owner sequence [0, 1, 2]; transferring the
    // middle one moves the last into the vacated slot.
    let mut r = Registry::new();
    let mut events: Vec<Event> = Vec::new();
    r.create_kitty(1, &h(1), &mut events).unwrap();
    r.create_kitty(1, &h(2), &mut events).unwrap();
    r.create_kitty(1, &h(3), &mut events).unwrap();
    let p = generate_id(&h(1), 1, 0);
    let q = generate_id(&h(2), 1, 1);
    let rr = generate_id(&h(3), 1, 2);
    assert_eq!(r.owned_kitty_index(&q), Some(1));
    assert_eq!(r.transfer(1, 3, &q, &mut events), Ok(()));
    assert_eq!(r.owner_of(&q), Some(3));
    assert_eq!(r.owned_kitty_count(1), 2);
    assert_eq!(r.owned_kitty_count(3), 1);
    assert!(r.owned_kitty_by_index(1, 0).unwrap().eq_bytes(&p));
    assert!(r.owned_kitty_by_index(1, 1).unwrap().eq_bytes(&rr));
    assert!(r.owned_kitty_by_index(3, 0).unwrap().eq_bytes(&q));
    assert_eq!(r.owned_kitty_index(&rr), Some(1));
    assert_eq!(r.owned_kitty_index(&q), Some(0));
    // the global enumeration index is untouched by transfers
    assert_eq!(r.all_kitties_count(), 3);
    assert!(r.all_kitties_by_index(0).unwrap().eq_bytes(&p));
    assert!(r.all_kitties_by_index(1).unwrap().eq_bytes(&q));
    assert!(r.all_kitties_by_index(2).unwrap().eq_bytes(&rr));
    match events.last().unwrap() {
        Event::Transferred(from, to, moved) => {
            assert_eq!(*from, 1);
            assert_eq!(*to, 3);
            assert!(moved.eq_bytes(&q));
        }
        _ => panic!("expected a transferred notification"),
    }
}

#[test]
fn transfer_to_self_changes_nothing() {
    let mut r = Registry::new();
    let mut events: Vec<Event> = Vec::new();
    r.create_kitty(1, &h(5), &mut events).unwrap();
    let id = generate_id(&h(5), 1, 0);
    assert_eq!(r.transfer(1, 1, &id, &mut events), Ok(()));
    assert_eq!(r.owner_of(&id), Some(1));
    assert_eq!(r.owned_kitty_count(1), 1);
    assert!(r.owned_kitty_by_index(1, 0).unwrap().eq_bytes(&id));
    assert_eq!(r.all_kitties_count(), 1);
}

#[test]
fn transfer_rejections() {
    let mut r = Registry::new();
    let mut events: Vec<Event> = Vec::new();
    r.create_kitty(1, &h(5), &mut events).unwrap();
    let id = generate_id(&h(5), 1, 0);
    assert_eq!(r.transfer(2, 3, &id, &mut events), Err(Error::Unauthorized));
    assert_eq!(r.transfer(1, 3, &h(42), &mut events), Err(Error::NotFound));
    assert_eq!(r.owner_of(&id), Some(1));
    assert_eq!(r.owned_kitty_count(1), 1);
}

#[test]
fn breed_mixes_dna_and_generations() {
    let mut r = Registry::new();
    let mut events: Vec<Event> = Vec::new();
    r.create_kitty(1, &h(10), &mut events).unwrap();
    r.create_kitty(1, &h(20), &mut events).unwrap();
    let parent_1 = generate_id(&h(10), 1, 0);
    let parent_2 = generate_id(&h(20), 1, 1);
    let breed_seed = h(30);
    assert_eq!(
        r.breed_kitty(1, &breed_seed, &parent_1, &parent_2, &mut events),
        Ok(())
    );
    let child_id = generate_id(&breed_seed, 1, 2);
    let dna_1 = r.kitty(&parent_1).unwrap().dna.duplicate();
    let dna_2 = r.kitty(&parent_2).unwrap().dna.duplicate();
    let expected_dna = splice_dna(&dna_1, &dna_2, &child_id);
    let child = r.kitty(&child_id).unwrap();
    assert!(child.dna.eq_bytes(&expected_dna));
    assert_eq!(child.gen, 1);
    assert_eq!(child.price, 0);
    assert_eq!(r.owner_of(&child_id), Some(1));
    assert_eq!(r.all_kitties_count(), 3);
    assert_eq!(r.owned_kitty_count(1), 3);
    assert_eq!(r.nonce(), 3);
    match events.last().unwrap() {
        Event::Created(owner, created) => {
            assert_eq!(*owner, 1);
            assert!(created.eq_bytes(&child_id));
        }
        _ => panic!("expected a created notification"),
    }
}

#[test]
fn breed_requires_both_parents() {
    let mut r = Registry::new();
    let mut events: Vec<Event> = Vec::new();
    r.create_kitty(1, &h(10), &mut events).unwrap();
    let parent = generate_id(&h(10), 1, 0);
    assert_eq!(
        r.breed_kitty(1, &h(30), &parent, &h(42), &mut events),
        Err(Error::NotFound)
    );
    assert_eq!(
        r.breed_kitty(1, &h(30), &h(42), &parent, &mut events),
        Err(Error::NotFound)
    );
    assert_eq!(r.all_kitties_count(), 1);
    assert_eq!(r.nonce(), 1);
}

#[test]
fn splice_follows_byte_selection_rule() {
    let a = h(0xAA);
    let b = h(0xBB);
    let mut mask_bytes = Vec::new();
    for i in 0..32usize {
        mask_bytes.push(i as u8);
    }
    let mask = Hash256::from_bytes(mask_bytes).unwrap();
    let first = splice_dna(&a, &b, &mask);
    for i in 0..32usize {
        let expected = if (i as u8) % 2 == 0 { 0xBB } else { 0xAA };
        assert_eq!(first.byte_at(i), expected);
    }
    // deterministic: the same three inputs always give the same payload
    let second = splice_dna(&a, &b, &mask);
    assert!(first.eq_bytes(&second));
}

#[test]
fn identifier_derivation_is_deterministic() {
    let seed = h(77);
    let one = generate_id(&seed, 5, 9);
    let two = generate_id(&seed, 5, 9);
    assert!(one.eq_bytes(&two));
    let other_nonce = generate_id(&seed, 5, 10);
    assert!(!one.eq_bytes(&other_nonce));
    let other_sender = generate_id(&seed, 6, 9);
    assert!(!one.eq_bytes(&other_sender));
}
