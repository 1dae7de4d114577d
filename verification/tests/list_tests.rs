use turtle_graph::list::List;

fn collect(list: List<u32>) -> Vec<u32> {
    list.into_vec()
}

fn from_range(lo: u32, hi: u32) -> List<u32> {
    let mut list: List<u32> = List::new();
    for v in lo..hi {
        list.push(v);
    }
    list
}

#[test]
pub fn iter() {
    let list: List<u32> = from_range(0, 10);
    let mut count = 0;
    let mut it = list.iter();
    while let Some(_) = it.next() {
        count += 1;
    }
    assert_eq!(count, 10);
    assert_eq!(collect(list), (0..10).collect::<Vec<u32>>());
}

#[test]
pub fn iter_mut() {
    let mut list: List<u32> = from_range(0, 10);
    let mut it = list.iter_mut();
    while let Some(h) = it.next(&list) {
        let elem = *list.get(h);
        list.insert_after(h, elem);
    }
    assert_eq!(list.len(), 20);
}

#[test]
pub fn pop_tail() {
    let mut list: List<u32> = from_range(0, 10);
    while let Some(elem) = list.pop_tail() {
        println!("{}", elem);
    }
}

#[test]
fn append_then_remove_back_round_trip() {
    let mut list: List<u32> = from_range(1, 4);
    list.push(9);
    assert_eq!(list.pop_tail(), Some(9));
    assert_eq!(collect(list), vec![1, 2, 3]);
}

#[test]
fn remove_front_yields_insertion_order() {
    let mut list: List<u32> = List::new();
    for v in [3, 1, 4, 1, 5] {
        list.push(v);
    }
    let mut popped = Vec::new();
    while let Some(v) = list.pop() {
        popped.push(v);
    }
    assert_eq!(popped, vec![3, 1, 4, 1, 5]);
    assert_eq!(list.pop(), None);
}

#[test]
fn splice_empty_donor_keeps_tail_fresh() {
    // Splicing an empty donor is a no-op; afterwards append and
    // remove-from-back must still see the true last element.
    let mut list: List<u32> = from_range(1, 4);
    let tail = list.tail_handle().unwrap();
    let donor: List<u32> = List::new();
    list.replace_with_list(tail, donor);
    list.push(4);
    assert_eq!(list.pop_tail(), Some(4));
    assert_eq!(list.pop_tail(), Some(3));
    assert_eq!(collect(list), vec![1, 2]);
}

#[test]
fn splice_single_donor_keeps_tail_fresh() {
    // Splicing a one-element donor over the last element must move the
    // cached tail to the donor's element.
    let mut list: List<u32> = from_range(1, 4);
    let tail = list.tail_handle().unwrap();
    let mut donor: List<u32> = List::new();
    donor.push(7);
    list.replace_with_list(tail, donor);
    list.push(4);
    assert_eq!(list.pop_tail(), Some(4));
    assert_eq!(list.pop_tail(), Some(7));
    assert_eq!(collect(list), vec![1, 2]);
}

#[test]
fn splice_in_the_middle() {
    let mut list: List<u32> = from_range(1, 4);
    let mut it = list.iter_mut();
    it.next(&list);
    let middle = it.next(&list).unwrap();
    let mut donor: List<u32> = List::new();
    donor.push(8);
    donor.push(9);
    list.replace_with_list(middle, donor);
    assert_eq!(collect(list), vec![1, 8, 9, 3]);
}

#[test]
fn splice_at_tail_with_long_donor() {
    let mut list: List<u32> = from_range(1, 3);
    let tail = list.tail_handle().unwrap();
    let mut donor: List<u32> = List::new();
    for v in [7, 8, 9] {
        donor.push(v);
    }
    list.replace_with_list(tail, donor);
    assert_eq!(list.tail_handle().is_some(), true);
    assert_eq!(list.pop_tail(), Some(9));
    assert_eq!(collect(list), vec![1, 7, 8]);
}

#[test]
fn mutating_pass_skips_spliced_content() {
    // A splice performed through the yielded handle inserts behind it; the
    // pass resumes at what originally followed, so new elements are not
    // revisited.
    let mut list: List<u32> = List::new();
    for v in [1, 1, 1] {
        list.push(v);
    }
    let mut it = list.iter_mut();
    let mut visited = 0;
    while let Some(h) = it.next(&list) {
        visited += 1;
        if *list.get(h) == 1 {
            let mut donor: List<u32> = List::new();
            donor.push(1);
            donor.push(1);
            list.replace_with_list(h, donor);
        }
    }
    assert_eq!(visited, 3);
    assert_eq!(list.len(), 6);
}

#[test]
fn into_iter_yields_front_first() {
    let list: List<u32> = from_range(5, 8);
    let mut it = list.into_iter();
    assert_eq!(it.next(), Some(5));
    assert_eq!(it.next(), Some(6));
    assert_eq!(it.next(), Some(7));
    assert_eq!(it.next(), None);
}

#[test]
fn pop_on_empty_is_none() {
    let mut list: List<u32> = List::new();
    assert_eq!(list.pop(), None);
    assert_eq!(list.pop_tail(), None);
    assert_eq!(list.tail_handle(), None);
    assert_eq!(list.len(), 0);
}
