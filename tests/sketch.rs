use space_saving::{BitmapCounter, CellFSS, Element, FilterdSpaceSaving};
use std::cmp::Ordering;

#[test]
fn test_type() {
    let bmc: BitmapCounter = vec![CellFSS { error: 1, count: 2 }];
    assert_eq!(bmc[0].error, 1);
    assert_eq!(bmc[0].count, 2);
}

#[test]
fn test_order_of_element() {
    let e1 = Element { value: 2, estimated_count: 2, associated_error: 3 };
    let e2 = Element { value: 2, estimated_count: 2, associated_error: 4 };
    assert_eq!(e1.cmp(&e2), Ordering::Greater);
}

#[test]
fn filterd_space_saving_test() {
    let mut fss = FilterdSpaceSaving::new(2, 3);
    assert_eq!(fss.bitmap_counter_size, 2);
    assert_eq!(fss.monitored_list_size_max, 3);
    let element = Element::new(2, 3, 4);
    println!("{:#?}", element);
    fss.insert_into_monitored_list(element);
    println!("{:#?}", fss.monitored_list[0]);
    assert_eq!(fss.mu, 0);
    let element = Element::new(2, 2, 4);
    fss.insert_into_monitored_list(element);
    assert_eq!(fss.mu, 0);
}

#[test]
fn topk_test() {
    let stream = vec!['1', '1', '1', '1', '1', '2', '2', '2', '3', '4', '4', '4', '4'];
    let mut fss = FilterdSpaceSaving::new(5, 3);
    fss.deal_with_a_stream(stream);
    for ele in fss.monitored_list.iter() {
        println!("{:#?}", ele);
    }
    assert_eq!(fss.monitored_list.len(), 3);
    assert_eq!(fss.monitored_list[0].value, '2');
    assert_eq!(fss.monitored_list[1].value, '4');
    assert_eq!(fss.monitored_list[2].value, '1');
}

fn counters(fss: &FilterdSpaceSaving<char>) -> Vec<(u64, u64)> {
    fss.bitmap_counter.iter().map(|c| (c.error, c.count)).collect()
}

fn entries(fss: &FilterdSpaceSaving<char>) -> Vec<(char, u64, u64)> {
    fss.monitored_list.iter().map(|e| (e.value, e.estimated_count, e.associated_error)).collect()
}

fn assert_sorted(fss: &FilterdSpaceSaving<char>) {
    for w in fss.monitored_list.windows(2) {
        let (a, b) = (&w[0], &w[1]);
        assert!(
            a.estimated_count < b.estimated_count
                || (a.estimated_count == b.estimated_count && a.associated_error >= b.associated_error)
        );
    }
}

#[test]
fn construction_is_empty() {
    let fss: FilterdSpaceSaving<char> = FilterdSpaceSaving::new(2, 3);
    assert_eq!(fss.bitmap_counter_size, 2);
    assert_eq!(fss.monitored_list_size_max, 3);
    assert_eq!(fss.mu, 0);
    assert!(fss.monitored_list.is_empty());
    assert_eq!(counters(&fss), vec![(0, 0), (0, 0)]);
}

#[test]
fn cell_starts_at_zero() {
    let c = CellFSS::new();
    assert_eq!((c.error, c.count), (0, 0));
}

#[test]
fn element_order() {
    let a = Element::new('a', 1, 5);
    let b = Element::new('b', 2, 0);
    let c = Element::new('c', 1, 5);
    assert_eq!(a.cmp(&b), Ordering::Less);
    assert_eq!(b.cmp(&a), Ordering::Greater);
    assert_eq!(a.cmp(&c), Ordering::Equal);
    assert!(a == c);
    assert!(a != b);
}

#[test]
fn hash_is_in_range_and_stable() {
    let fss: FilterdSpaceSaving<char> = FilterdSpaceSaving::new(7, 2);
    for v in ['a', 'b', 'z', '0'] {
        let s = fss.hash_fn(&v);
        assert!(s < 7);
        assert_eq!(s, fss.hash_fn(&v));
    }
}

#[test]
fn direct_hit_keeps_length() {
    let mut fss = FilterdSpaceSaving::new(5, 3);
    let slot = fss.hash_fn(&'a');
    fss.deal_with_new_value('a');
    assert_eq!(entries(&fss), vec![('a', 0, 1)]);
    assert_eq!(fss.bitmap_counter[slot].count, 1);
    fss.deal_with_new_value('a');
    fss.deal_with_new_value('a');
    assert_eq!(entries(&fss), vec![('a', 2, 1)]);
    assert_eq!(fss.bitmap_counter[slot].count, 3);
    assert_eq!(fss.bitmap_counter[slot].error, 0);
}

#[test]
fn slot_level_decisions() {
    let mut fss = FilterdSpaceSaving::new(4, 2);
    fss.deal_with_value_in_slot('x', 1);
    assert_eq!(entries(&fss), vec![('x', 0, 1)]);
    assert_eq!(fss.mu, 0);
    fss.deal_with_value_in_slot('y', 1);
    assert_eq!(entries(&fss), vec![('x', 0, 1), ('y', 0, 1)]);
    assert_eq!(fss.bitmap_counter[1].count, 2);
    fss.deal_with_value_in_slot('x', 1);
    assert_eq!(entries(&fss), vec![('y', 0, 1), ('x', 1, 1)]);
    assert_eq!(fss.bitmap_counter[1].count, 3);
    assert_eq!(fss.mu, 0);
    // full list: 'z' evicts 'y', whose slot gives up a count
    fss.deal_with_value_in_slot('z', 2);
    assert_eq!(entries(&fss), vec![('z', 0, 1), ('x', 1, 1)]);
    assert_eq!(counters(&fss), vec![(0, 0), (0, 2), (0, 1), (0, 0)]);
    // an equal rank after a hit goes in front of its equals
    fss.deal_with_value_in_slot('z', 2);
    assert_eq!(entries(&fss), vec![('z', 1, 1), ('x', 1, 1)]);
    assert_eq!(fss.mu, 1);
}

#[test]
fn replacement_reconciles_filter() {
    let mut fss = FilterdSpaceSaving::new(3, 1);
    fss.deal_with_value_in_slot('a', 0);
    fss.deal_with_value_in_slot('a', 0);
    fss.deal_with_value_in_slot('a', 0);
    assert_eq!(entries(&fss), vec![('a', 2, 1)]);
    assert_eq!(fss.mu, 2);
    // too little evidence: only the error grows
    fss.deal_with_value_in_slot('b', 1);
    assert_eq!(entries(&fss), vec![('a', 2, 1)]);
    assert_eq!(counters(&fss), vec![(0, 3), (1, 0), (0, 0)]);
    // now 1 + 1 >= 2: 'b' replaces 'a'
    fss.deal_with_value_in_slot('b', 1);
    assert_eq!(entries(&fss), vec![('b', 1, 2)]);
    assert_eq!(counters(&fss), vec![(1, 2), (1, 1), (0, 0)]);
    assert_eq!(fss.mu, 1);
}

#[test]
fn mu_tracks_the_weakest_when_full() {
    let mut fss = FilterdSpaceSaving::new(8, 2);
    fss.deal_with_value_in_slot('p', 0);
    assert_eq!(fss.mu, 0);
    fss.deal_with_value_in_slot('p', 0);
    fss.deal_with_value_in_slot('p', 0);
    assert_eq!(fss.mu, 0);
    fss.deal_with_value_in_slot('q', 3);
    assert_eq!(entries(&fss), vec![('q', 0, 1), ('p', 2, 1)]);
    assert_eq!(fss.mu, 0);
    fss.deal_with_value_in_slot('q', 3);
    fss.deal_with_value_in_slot('q', 3);
    fss.deal_with_value_in_slot('q', 3);
    assert_eq!(entries(&fss), vec![('p', 2, 1), ('q', 3, 1)]);
    assert_eq!(fss.mu, 2);
}

#[test]
fn stream_equals_single_values() {
    let stream = vec!['a', 'b', 'a', 'c', 'd', 'a', 'e', 'b', 'b', 'f', 'a', 'g', 'b'];
    let mut whole = FilterdSpaceSaving::new(3, 2);
    whole.deal_with_a_stream(stream.clone());
    let mut single = FilterdSpaceSaving::new(3, 2);
    for v in stream {
        single.deal_with_new_value(v);
        assert!(single.monitored_list.len() <= 2);
        assert_eq!(single.bitmap_counter.len(), 3);
        assert_sorted(&single);
    }
    assert_eq!(entries(&whole), entries(&single));
    assert_eq!(counters(&whole), counters(&single));
    assert_eq!(whole.mu, single.mu);
}

#[test]
fn empty_stream_changes_nothing() {
    let mut fss: FilterdSpaceSaving<char> = FilterdSpaceSaving::new(3, 2);
    fss.deal_with_a_stream(Vec::new());
    assert!(fss.monitored_list.is_empty());
    assert_eq!(counters(&fss), vec![(0, 0), (0, 0), (0, 0)]);
}

#[test]
fn find_and_bump_candidates() {
    let mut fss = FilterdSpaceSaving::new(4, 3);
    fss.deal_with_value_in_slot('a', 0);
    fss.deal_with_value_in_slot('b', 1);
    fss.deal_with_value_in_slot('c', 2);
    assert_eq!(fss.find_element_in_monitored_list(&'b'), Some(1));
    assert_eq!(fss.find_element_in_monitored_list(&'d'), None);
    fss.increase_monitor_list_count(0);
    assert_eq!(entries(&fss), vec![('b', 0, 1), ('c', 0, 1), ('a', 1, 1)]);
    fss.increase_bitmap_counter_count(3);
    assert_eq!(fss.bitmap_counter[3].count, 1);
    fss.decrease_bitmap_counter_count(3);
    assert_eq!(fss.bitmap_counter[3].count, 0);
    fss.update_mu();
    assert_eq!(fss.mu, 0);
}

#[test]
fn insert_and_replace_through_the_hash() {
    let mut fss = FilterdSpaceSaving::new(6, 1);
    let sa = fss.hash_fn(&'a');
    let sb = fss.hash_fn(&'b');
    fss.insert_into_monitored_list(Element::new('a', 4, 5));
    assert_eq!(fss.mu, 4);
    assert_eq!(fss.bitmap_counter[sa].count, 1);
    fss.replace_elemnt_in_monitored_list(Element::new('b', 7, 8));
    assert_eq!(entries(&fss), vec![('b', 7, 8)]);
    assert_eq!(fss.mu, 7);
    assert_eq!(fss.bitmap_counter[sa].error, 7);
    if sa == sb {
        assert_eq!(fss.bitmap_counter[sa].count, 1);
    } else {
        assert_eq!(fss.bitmap_counter[sa].count, 0);
        assert_eq!(fss.bitmap_counter[sb].count, 1);
    }
}
