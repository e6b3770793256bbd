use lattice_db::utils::generational_vector::GenVec;

#[test]
fn test_gen_vec_invalid_handle() {
    let mut g = GenVec::new();

    let h1 = g.add(1);
    assert_eq!(h1.index, 0);
    assert_eq!(h1.generation, 0);

    let removed = g.remove(h1);
    assert_eq!(removed, Some(1));

    assert!(g.get_mut(h1).is_none());
    assert!(g.remove(h1).is_none());

    let h2 = g.add(2);
    assert_eq!(h2.index, 0);
    assert_eq!(h2.generation, 1);

    assert!(g.get_mut(h1).is_none());
    assert_eq!(g.get_mut(h2), Some(&mut 2));
}

#[test]
fn test_gen_vec_fills() {
    let mut g = GenVec::new();
    let h1 = g.add(1);
    let h2 = g.add(2);

    g.remove(h1);
    g.remove(h2);

    let h3 = g.add(3);
    let h4 = g.add(4);
    let h5 = g.add(5);

    assert_eq!(h3.index, 1);
    assert_eq!(h4.index, 0);
    assert_eq!(h5.index, 2);

    assert_eq!(g.freed_count(), 0);
    assert_eq!(g.slot_count(), 3);
}

#[test]
fn removed_handle_stays_dead_through_later_operations() {
    let mut g = GenVec::new();
    let a = g.add("a");
    let b = g.add("b");
    assert_eq!(g.remove(a), Some("a"));
    assert!(g.get(a).is_none());

    // the slot is filled again: the old handle does not resolve to the new item
    let c = g.add("c");
    assert_eq!(c.index, a.index);
    assert_ne!(c, a);
    assert!(g.get(a).is_none());
    assert!(g.get_mut(a).is_none());
    assert_eq!(g.remove(a), None);
    assert_eq!(g.get(c), Some(&"c"));

    // more removals and insertions do not bring it back
    assert_eq!(g.remove(b), Some("b"));
    assert_eq!(g.remove(c), Some("c"));
    let d = g.add("d");
    let e = g.add("e");
    assert!(g.get(a).is_none());
    assert!(g.get(b).is_none());
    assert!(g.get(c).is_none());
    assert_eq!(g.remove(a), None);
    assert_eq!(g.get(d), Some(&"d"));
    assert_eq!(g.get(e), Some(&"e"));
    assert_eq!(d.generation, 2);
    assert_eq!(e.generation, 1);
}

#[test]
fn unknown_handles_resolve_to_nothing() {
    let mut g: GenVec<u8> = GenVec::new();
    let h = g.add(1);
    let beyond = lattice_db::utils::generational_vector::Handle { generation: 0, index: 5 };
    let later = lattice_db::utils::generational_vector::Handle { generation: 1, index: 0 };
    assert!(g.get(beyond).is_none());
    assert!(g.get(later).is_none());
    assert_eq!(g.remove(beyond), None);
    assert_eq!(g.remove(later), None);
    assert_eq!(g.get(h), Some(&1));
    assert_eq!(g.slot_count(), 1);
    assert_eq!(g.freed_count(), 0);
}

#[test]
fn get_mut_changes_the_item_in_place() {
    let mut g = GenVec::new();
    let h = g.add(10);
    if let Some(item) = g.get_mut(h) {
        *item += 5;
    }
    assert_eq!(g.get(h), Some(&15));
    if let Some(item) = g.get_mut_index(0) {
        *item += 1;
    }
    assert_eq!(g.get_index(0), Some(&16));
    assert_eq!(g.get_index(1), None);
}

#[test]
fn iteration_skips_empty_slots_and_is_ascending() {
    let mut g = GenVec::new();
    let a = g.add('a');
    let b = g.add('b');
    let c = g.add('c');
    let d = g.add('d');
    g.remove(b);
    let all = g.iter();
    assert_eq!(all, vec![(a, &'a'), (c, &'c'), (d, &'d')]);
    assert_eq!(g.iter_from(1), vec![(c, &'c'), (d, &'d')]);
    assert_eq!(g.iter_from(3), vec![(d, &'d')]);
    assert!(g.iter_from(4).is_empty());
    assert!(g.iter_from(100).is_empty());
    assert_eq!(g.iter_mut_from(2), vec![c, d]);

    // a filled slot is listed under its new generation
    let e = g.add('e');
    assert_eq!(e.index, 1);
    assert_eq!(e.generation, 1);
    assert_eq!(g.iter_from(1), vec![(e, &'e'), (c, &'c'), (d, &'d')]);
    assert_eq!(g.get_index(1), Some(&'e'));
}
