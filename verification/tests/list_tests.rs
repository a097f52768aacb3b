use algorithms::list::LinkedList;

#[test]
fn create_numeric_list() {
    let mut list = LinkedList::<i32>::new();
    list.add(1);
    list.add(2);
    list.add(3);
    println!("Linked List is {}", list.length);
    assert_eq!(3, list.length);
}

#[test]
fn create_string_list() {
    let mut list_str = LinkedList::<String>::new();
    list_str.add("A".to_string());
    list_str.add("B".to_string());
    list_str.add("C".to_string());
    println!("Linked List is {}", list_str.length);
    assert_eq!(3, list_str.length);
}

#[test]
fn test_merge_linked_list_1() {
    let mut list_a = LinkedList::<i32>::new();
    let mut list_b = LinkedList::<i32>::new();
    let vec_a = vec![1, 3, 5, 7];
    let vec_b = vec![2, 4, 6, 8];
    let target_vec = vec![1, 2, 3, 4, 5, 6, 7, 8];

    for i in 0..vec_a.len() {
        list_a.add(vec_a[i]);
    }
    for i in 0..vec_b.len() {
        list_b.add(vec_b[i]);
    }
    println!("list a {} list b {}", list_a.length, list_b.length);
    let list_c = LinkedList::<i32>::merge(list_a, list_b);
    println!("merged List is {}", list_c.length);
    for i in 0..target_vec.len() {
        assert_eq!(target_vec[i], *list_c.get(i as i32).unwrap());
    }
}

#[test]
fn test_merge_linked_list_2() {
    let mut list_a = LinkedList::<i32>::new();
    let mut list_b = LinkedList::<i32>::new();
    let vec_a = vec![11, 33, 44, 88, 89, 90, 100];
    let vec_b = vec![1, 22, 30, 45];
    let target_vec = vec![1, 11, 22, 30, 33, 44, 45, 88, 89, 90, 100];

    for i in 0..vec_a.len() {
        list_a.add(vec_a[i]);
    }
    for i in 0..vec_b.len() {
        list_b.add(vec_b[i]);
    }
    println!("list a {} list b {}", list_a.length, list_b.length);
    let list_c = LinkedList::<i32>::merge(list_a, list_b);
    println!("merged List is {}", list_c.length);
    for i in 0..target_vec.len() {
        assert_eq!(target_vec[i], *list_c.get(i as i32).unwrap());
    }
}

#[test]
fn test_merge_recursive() {
    let mut list_a = LinkedList::<i32>::new();
    let mut list_b = LinkedList::<i32>::new();
    let vec_a = vec![11, 33, 44, 88, 89, 90, 100];
    let vec_b = vec![1, 22, 30, 45];
    let target_vec = vec![1, 11, 22, 30, 33, 44, 45, 88, 89, 90, 100];

    for i in 0..vec_a.len() {
        list_a.add(vec_a[i]);
    }
    for i in 0..vec_b.len() {
        list_b.add(vec_b[i]);
    }
    println!("list a {} list b {}", list_a.length, list_b.length);
    let list_c = LinkedList::<i32>::merge_recursive(list_a, list_b);
    println!("merged List (recursive) is {}", list_c.length);
    for i in 0..target_vec.len() {
        assert_eq!(target_vec[i], *list_c.get(i as i32).unwrap());
    }
}

#[test]
fn test_get_out_of_range() {
    let mut list = LinkedList::<i32>::new();
    assert!(list.get(0).is_none());
    list.add(10);
    list.add(20);
    assert_eq!(list.get(0), Some(&10));
    assert_eq!(list.get(1), Some(&20));
    assert!(list.get(2).is_none());
    assert!(list.get(-1).is_none());
}

#[test]
fn test_merge_with_empty_list() {
    let mut list_a = LinkedList::<i32>::new();
    let list_b = LinkedList::<i32>::new();
    list_a.add(3);
    list_a.add(9);
    let merged = LinkedList::<i32>::merge(list_a, list_b);
    assert_eq!(merged.length, 2);
    assert_eq!(merged.get(0), Some(&3));
    assert_eq!(merged.get(1), Some(&9));
}

#[test]
fn test_merge_ties_favour_first_list() {
    let mut list_a = LinkedList::<i32>::new();
    let mut list_b = LinkedList::<i32>::new();
    list_a.add(5);
    list_b.add(5);
    list_b.add(6);
    let merged = LinkedList::<i32>::merge(list_a, list_b);
    assert_eq!(merged.length, 3);
    assert_eq!(merged.get(0), Some(&5));
    assert_eq!(merged.get(1), Some(&5));
    assert_eq!(merged.get(2), Some(&6));
}
