use hash_table::{HashTable, Hashable};

/// An element type of the caller's own, whose every value has the same hash.
#[derive(Debug, Clone, PartialEq)]
struct Crowded(u32);

impl Hashable for Crowded {
    fn hash(&self) -> usize {
        3
    }
}

#[test]
fn caller_defined_element_type_collides_everywhere() {
    let mut table: HashTable<Crowded> = HashTable::new(5, false);
    for n in 0..5 {
        table.insert(Crowded(n)).unwrap();
    }
    // All five share home slot 3, so they lie in probing order from there.
    assert_eq!(table.get_index(3), Some(&Crowded(0)));
    assert_eq!(table.get_index(4), Some(&Crowded(1)));
    assert_eq!(table.get_index(0), Some(&Crowded(2)));
    assert_eq!(table.get_index(1), Some(&Crowded(3)));
    assert_eq!(table.get_index(2), Some(&Crowded(4)));
    for n in 0..5 {
        assert_eq!(table.get(&Crowded(n)), Some(&Crowded(n)));
    }
}

/// An element type whose equality looks at the key alone.
#[derive(Debug, Clone)]
struct Labelled {
    key: u32,
    label: &'static str,
}

impl PartialEq for Labelled {
    fn eq(&self, other: &Self) -> bool {
        self.key == other.key
    }
}

impl Hashable for Labelled {
    fn hash(&self) -> usize {
        self.key as usize
    }
}

#[test]
fn lookup_and_removal_hand_out_what_the_table_holds() {
    let mut table: HashTable<Labelled> = HashTable::new(4, false);
    table.insert(Labelled { key: 6, label: "held" }).unwrap();
    let probe = Labelled { key: 6, label: "asked" };
    assert_eq!(table.get(&probe).unwrap().label, "held");
    assert_eq!(table.remove(probe).unwrap().label, "held");
    assert!(table.is_empty());
}

#[test]
fn first_equal_occupant_in_probing_order_wins() {
    let mut table: HashTable<Labelled> = HashTable::new(4, false);
    table.insert(Labelled { key: 3, label: "first" }).unwrap();
    table.insert(Labelled { key: 3, label: "second" }).unwrap();
    // Home slot 3, then the wrap to slot 0.
    assert_eq!(table.get_index(3).unwrap().label, "first");
    assert_eq!(table.get_index(0).unwrap().label, "second");
    let probe = Labelled { key: 3, label: "asked" };
    assert_eq!(table.get(&probe).unwrap().label, "first");
    assert_eq!(table.remove(probe.clone()).unwrap().label, "first");
    assert_eq!(table.get(&probe).unwrap().label, "second");
}
