use expression_calculator::collection::link_list::LinkList;
use std::rc::Rc;


#[test]
fn test_empty_list() {
    let list = LinkList::<i32>::new();
    
    assert_eq!(list.len(), 0);
    assert!(list.is_empty());
    assert_eq!(list.head(), None);
    assert_eq!(list.tail(), None);
}

#[test]
fn test_list_of_one() {
    let one = "one".to_string();
    let list = LinkList::<String>::new();
    let list = list.insert(one.clone());
    
    assert_eq!(list.len(), 1);
    assert!(!list.is_empty());
    assert!(list.is_not_empty());
    assert_eq!(list.head().unwrap(), one);
    assert_eq!(list.tail().unwrap(), LinkList::new()); // empty list
}

#[test]
fn test_list_of_two() {
    let one = "one".to_string();
    let two = "two".to_string();
    let list = LinkList::<String>::new();
    let list = list.insert(two.clone()).insert(one.clone());
    
    assert_eq!(list.len(), 2);
    assert!(!list.is_empty());
    assert!(list.is_not_empty());
    assert_eq!(list.head().unwrap(), one);
    assert_eq!(list.tail().unwrap().head().unwrap(), two);
}

#[test]
fn test_insert_at() {
    let list = LinkList::<i32>::new().append(1).append(2);
    assert_eq!(list.insert_at(0, 42), LinkList::<i32>::new().append(42).append(1).append(2));
    assert_eq!(list.insert_at(1, 42), LinkList::<i32>::new().append(1).append(42).append(2));
    assert_eq!(list.insert_at(2, 42), LinkList::<i32>::new().append(1).append(2).append(42));

    assert_eq!(LinkList::<i32>::new().insert_at(0, 42), LinkList::<i32>::new().append(42));
}

#[test]
fn test_equality() {
    //
    // empty lists are equal
    //
    assert_eq!(LinkList::<i32>::new(), LinkList::<i32>::new());

    //
    // identical lists are equal
    //
    let list1 = LinkList::<i32>::new().insert(2).insert(1);  // 1,2
    let list2 = LinkList::<i32>::new().insert(2).insert(1);  // 1,2
    assert_eq!(list1, list2);

    //
    // non-empty list is NOT equal to the empty list
    //
    assert_ne!(list1, LinkList::<i32>::new());

    //
    // non-identical lists are NOT equal
    //
    let list1 = LinkList::<i32>::new().insert(2).insert(1);  // 1,2
    let list2 = LinkList::<i32>::new().insert(3).insert(4);  // 3,4
    assert_ne!(list1, list2);
}

#[test]
fn test_size() {
    let list = LinkList::<i32>::new();
    assert_eq!(list.len(), 0);

    let list = list.insert(1);
    assert_eq!(list.len(), 1);
    let list = list.insert(2);
    assert_eq!(list.len(), 2);
    let list = list.insert(3);
    assert_eq!(list.len(), 3);

    let list = list.tail().unwrap();
    assert_eq!(list.len(), 2);
    let list = list.tail().unwrap();
    assert_eq!(list.len(), 1);
    let list = list.tail().unwrap();
    assert_eq!(list.len(), 0);
}

#[test]
fn test_reverse() {
    let list = LinkList::<i32>::new();
    let list = list.insert(2).insert(1);
    let list = list.reverse();

    assert_eq!(list.len(), 2);
    assert!(!list.is_empty());
    assert!(list.is_not_empty());
    assert_eq!(list, LinkList::<i32>::new().insert(1).insert(2));
    assert_eq!(list.head().unwrap(), 2);
    assert_eq!(list.tail().unwrap().head().unwrap(), 1);
}

#[test]
fn test_reverse_rc() {
    //
    // We can wrap a non-clonable in Rc.
    // We can wrap a clonable in Rc so we don't make copies.
    //
    #[derive(Debug, PartialEq)] // not clonable
    struct Data {
        value: String
    }
    let one = Data{value: "one".to_string()};
    let two = Data{value: "two".to_string()};
    // this won't compile: let list = LinkList::<Data>::new();
    let list = LinkList::<Rc<Data>>::new();
    let list = list.insert(Rc::new(two)).insert(Rc::new(one));
    let list = list.reverse();

    let one = Data{value: "one".to_string()};
    let two = Data{value: "two".to_string()};
    assert_eq!(list.len(), 2);
    assert!(!list.is_empty());
    assert!(list.is_not_empty());
    assert_eq!(list.head().unwrap().as_ref(), &two);
    assert_eq!(list.tail().unwrap().head().unwrap().as_ref(), &one);
}

#[test]
fn test_append() {
    let one = "one".to_string();
    let two = "two".to_string();
    let three = "three".to_string();
    let list = LinkList::<String>::new();

    //
    // appending to empty list
    //
    let list = list.append(one.clone());
    assert_eq!(list.len(), 1);
    assert!(!list.is_empty());
    assert!(list.is_not_empty());
    assert_eq!(list.head().unwrap(), one);

    //
    // appending to list of one
    //
    let list = list.append(two.clone());
    assert_eq!(list.len(), 2);
    assert!(!list.is_empty());
    assert!(list.is_not_empty());
    assert_eq!(list.head().unwrap(), one);
    assert_eq!(list.tail().unwrap().head().unwrap(), two);

    //
    // appending to list of two
    //
    let list = list.append(three.clone());
    assert_eq!(list.len(), 3);
    assert!(!list.is_empty());
    assert!(list.is_not_empty());
    assert_eq!(list.head().unwrap(), one);
    assert_eq!(list.tail().unwrap().head().unwrap(), two);
    assert_eq!(list.tail().unwrap().tail().unwrap().head().unwrap(), three);
}

#[test]
fn test_concatenate() {
    let list1 = LinkList::<i32>::new().insert(2).insert(1);  // 1,2
    let list2 = LinkList::<i32>::new().insert(4).insert(3);  // 3,4

    let list = list1.concat(&list2); // 1,2,3,4
    assert_eq!(list.len(), 4);
    assert!(!list.is_empty());
    assert_eq!(list.head(), Some(1));
    let list = list.tail().unwrap();
    assert_eq!(list.head(), Some(2));
    let list = list.tail().unwrap();
    assert_eq!(list.head(), Some(3));
    let list = list.tail().unwrap();
    assert_eq!(list.head(), Some(4));
    let list = list.tail().unwrap();
    assert!(list.is_empty());

    //
    // concatenating empty lists is empty
    //
    assert!(LinkList::<i32>::new().concat(&LinkList::<i32>::new()).is_empty());
    assert_eq!(LinkList::<i32>::new().concat(&LinkList::<i32>::new()), LinkList::<i32>::new());

    //
    // concatenating to an empty list is the other list
    //
    let list = LinkList::<i32>::new().concat(&list1);
    assert_eq!(list.len(), list1.len());
    assert!(!list.is_empty());
    assert_eq!(list, list1);
    assert_eq!(list.head(), Some(1));
    let list = list.tail().unwrap();
    assert_eq!(list.head(), Some(2));
    let list = list.tail().unwrap();
    assert!(list.is_empty());

    //
    // concatenating an empty list is the list itself
    //
    let list = list1.concat(&LinkList::<i32>::new());
    assert_eq!(list.len(), list1.len());
    assert!(!list.is_empty());
    assert_eq!(list, list1);
    assert_eq!(list.head(), Some(1));
    let list = list.tail().unwrap();
    assert_eq!(list.head(), Some(2));
    let list = list.tail().unwrap();
    assert!(list.is_empty());
}

#[test]
fn test_remove_at() {
    let list = LinkList::<i32>::new().append(1).append(2).append(3);

    assert_eq!(list.remove_at(0), LinkList::<i32>::new().append(2).append(3));
    assert_eq!(list.remove_at(1), LinkList::<i32>::new().append(1).append(3));
    assert_eq!(list.remove_at(2), LinkList::<i32>::new().append(1).append(2));
    assert_eq!(list.remove_at(3), list);
}

#[test]
fn test_nth() {
    let list = LinkList::<i32>::new().append(1).append(2).append(3);

    assert_eq!(list.nth(0), list);
    assert_eq!(list.nth(1), LinkList::<i32>::new().append(2).append(3));
    assert_eq!(list.nth(2), LinkList::<i32>::new().append(3));
    assert!(list.nth(3).is_empty());

}

#[test]
fn test_swap() {
    let list = LinkList::<i32>::new().append(1).append(2).append(3).append(4);

    let swapped = list.swap(1, 2);
    assert_eq!(swapped,
        LinkList::<i32>::new().append(1).append(3).append(2).append(4)
    );
    let swapped = list.swap(0, 3);
    assert_eq!(swapped,
        LinkList::<i32>::new().append(4).append(2).append(3).append(1)
    );

    // order of indices does not matter
    let swapped = list.swap(2, 1);
    assert_eq!(swapped,
        LinkList::<i32>::new().append(1).append(3).append(2).append(4)
    );

    // one index out of range is same as remove_at(i)
    let swapped = list.swap(1, 4);
    assert_eq!(swapped,
        LinkList::<i32>::new().append(1).append(3).append(4)
    );

    // both indices out of range
    let swapped = list.swap(4, 5);
    assert_eq!(swapped, list);

    // empty list results in empty list
    assert_eq!(LinkList::<i32>::new().swap(1, 2), LinkList::<i32>::new());
}

#[test]
fn test_permute() {
    let list = LinkList::<String>::new().append("A".to_string()).append("B".to_string()).append("C".to_string()).append("D".to_string());
    let permutations = list.permute();

    let mut permutation = permutations.clone();
    while !permutation.is_empty() {
                permutation = permutation.tail().unwrap();
    }

    assert_eq!(24, permutations.len());

    let values = LinkList::<LinkList::<String>>::new()
    .insert(LinkList::<String>::new().append("A".to_string()).append("B".to_string()).append("C".to_string()).append("D".to_string()))
    .insert(LinkList::<String>::new().append("A".to_string()).append("B".to_string()).append("D".to_string()).append("C".to_string()))
    .insert(LinkList::<String>::new().append("A".to_string()).append("C".to_string()).append("B".to_string()).append("D".to_string()))
    .insert(LinkList::<String>::new().append("A".to_string()).append("C".to_string()).append("D".to_string()).append("B".to_string()))
    .insert(LinkList::<String>::new().append("A".to_string()).append("D".to_string()).append("B".to_string()).append("C".to_string()))
    .insert(LinkList::<String>::new().append("A".to_string()).append("D".to_string()).append("C".to_string()).append("B".to_string()))

    .insert(LinkList::<String>::new().append("B".to_string()).append("A".to_string()).append("C".to_string()).append("D".to_string()))
    .insert(LinkList::<String>::new().append("B".to_string()).append("A".to_string()).append("D".to_string()).append("C".to_string()))
    .insert(LinkList::<String>::new().append("B".to_string()).append("C".to_string()).append("A".to_string()).append("D".to_string()))
    .insert(LinkList::<String>::new().append("B".to_string()).append("C".to_string()).append("D".to_string()).append("A".to_string()))
    .insert(LinkList::<String>::new().append("B".to_string()).append("D".to_string()).append("A".to_string()).append("C".to_string()))
    .insert(LinkList::<String>::new().append("B".to_string()).append("D".to_string()).append("C".to_string()).append("A".to_string()))

    .insert(LinkList::<String>::new().append("C".to_string()).append("A".to_string()).append("B".to_string()).append("D".to_string()))
    .insert(LinkList::<String>::new().append("C".to_string()).append("A".to_string()).append("D".to_string()).append("B".to_string()))
    .insert(LinkList::<String>::new().append("C".to_string()).append("B".to_string()).append("A".to_string()).append("D".to_string()))
    .insert(LinkList::<String>::new().append("C".to_string()).append("B".to_string()).append("D".to_string()).append("A".to_string()))
    .insert(LinkList::<String>::new().append("C".to_string()).append("D".to_string()).append("A".to_string()).append("B".to_string()))
    .insert(LinkList::<String>::new().append("C".to_string()).append("D".to_string()).append("B".to_string()).append("A".to_string()))

    .insert(LinkList::<String>::new().append("D".to_string()).append("A".to_string()).append("B".to_string()).append("C".to_string()))
    .insert(LinkList::<String>::new().append("D".to_string()).append("A".to_string()).append("C".to_string()).append("B".to_string()))
    .insert(LinkList::<String>::new().append("D".to_string()).append("B".to_string()).append("A".to_string()).append("C".to_string()))
    .insert(LinkList::<String>::new().append("D".to_string()).append("B".to_string()).append("C".to_string()).append("A".to_string()))
    .insert(LinkList::<String>::new().append("D".to_string()).append("C".to_string()).append("A".to_string()).append("B".to_string()))
    .insert(LinkList::<String>::new().append("D".to_string()).append("C".to_string()).append("B".to_string()).append("A".to_string()));

    let mut permutation = permutations.clone();
    while !permutation.is_empty() {
        let first = values.find(&permutation.head().unwrap());
        assert!(!first.is_empty());

        let second = first.tail().unwrap().find(&permutation.head().unwrap());
        assert!(second.is_empty());

        permutation = permutation.tail().unwrap();
    }
}

#[test]
fn test_map() {
    let list = LinkList::<i32>::new().append(1).append(2).append(3); // 1,2,3

    let mapped_list = list.map::<String>(|x| format!("{}", x + x));  // "2","4","6"

    assert_eq!("2".to_string(), mapped_list.head().unwrap());
    assert_eq!("4".to_string(), mapped_list.tail().unwrap().head().unwrap());
    assert_eq!("6".to_string(), mapped_list.tail().unwrap().tail().unwrap().head().unwrap());

    let mapped_list = LinkList::<i32>::new().map::<String>(|x| format!("{}", x + x));
    assert_eq!(LinkList::<String>::new(), mapped_list);
}

#[test]
fn test_filter() {
    let list = LinkList::<i32>::new().append(1).append(2).append(3);

    // filter out the even values, leaving the odd
    let filtered = list.filter(|i| 1 == i % 2);
    assert!(2 == filtered.len());      // "filtered list has two elements",
    assert!(1 == filtered.head().unwrap());        // "first item in filtered list is 1",
    assert!(3 == filtered.tail().unwrap().head().unwrap());   // "second item in filtered list is 3",

    // filter out the odd values, leaving the event
    let filtered = list.filter(|i| 0 == i % 2);
    assert!(1 == filtered.len());  // "filtered list has two elements",
    assert!(2 == filtered.head().unwrap());    // "first item in filtered list is 2",

    // empty list yields empty list
    let list = LinkList::<i32>::new();
    let filtered = list.filter(|i| 0 == i % 2);
    assert!(filtered.is_empty());
}

#[test]
fn test_fatten() {
    let list = LinkList::<i32>::new().append(1).append(2).append(3);
    let fattened = list.fatten();
    assert_eq!(
        fattened,
        LinkList::<LinkList<i32>>::new()
            .append(LinkList::<i32>::new().insert(1))
            .append(LinkList::<i32>::new().insert(2))
            .append(LinkList::<i32>::new().insert(3))
    );

    assert_eq!(LinkList::<i32>::new().fatten(), LinkList::<LinkList<i32>>::new());
}

#[test]
fn test_flatten() {
    let list = LinkList::<LinkList<i32>>::new()
        .append(LinkList::<i32>::new().insert(1))
        .append(LinkList::<i32>::new().append(2).append(3))
        .append(LinkList::<i32>::new().insert(4));
    let flattened = list.flatten();
    assert_eq!(
        flattened,
        LinkList::<i32>::new().append(1).append(2).append(3).append(4)
    );

    assert_eq!(LinkList::<i32>::new(), LinkList::<LinkList<i32>>::new().flatten());
}

#[test]
fn test_flatmap() {
    let list = LinkList::<LinkList<i32>>::new()
        .append(LinkList::<i32>::new().insert(1))
        .append(LinkList::<i32>::new().append(2).append(3))
        .append(LinkList::<i32>::new().insert(4));
    let flat_mapped = list.flatmap(|x| format!("{}", x + x));

    assert_eq!(
        flat_mapped,
        LinkList::<String>::new()
            .append("2".to_string())
            .append("4".to_string())
            .append("6".to_string())
            .append("8".to_string())
    );

    assert_eq!(LinkList::<String>::new(), LinkList::<LinkList<i32>>::new().flatmap(|x| format!("{}", x + x)));
}

#[test]
fn test_combine() {
    let accumulator = LinkList::<LinkList<char>>::of_two(
        LinkList::<char>::of_three('a', 'b', 'c'),
        LinkList::<char>::of_three('d', 'e', 'f'));
    let list = LinkList::<char>::of_two('1', '2');

    let combinations: LinkList<LinkList<char>> = accumulator.combine(list);

    // println!("{:#?}", combinations);

    let correct = LinkList::<LinkList<char>>::of_four(
        LinkList::<char>::of_four('a', 'b', 'c', '1'),
        LinkList::<char>::of_four('a', 'b', 'c', '2'),
        LinkList::<char>::of_four('d', 'e', 'f', '1'),
        LinkList::<char>::of_four('d', 'e', 'f', '2'),
    );

    assert_eq!(4, combinations.len()); // "There should be 4 combinations.",
    let mut combinations = combinations.clone();
    while !combinations.is_empty() {
        let combination = combinations.head().unwrap();
        assert!(!correct.find(&combination).is_empty()); // "Each combination should be in the output",
        combinations = combinations.tail().unwrap();
    }
}

#[test]
fn link_list_test_combinations() {
    // so combinations([[a, b], [c, d], [e, f]]) produces 2^3 = 8 combinations
    // [[a, c, e], [a, c, f], [a, d, e], [a, d, f], [b, c, e], [b, c, f], [b, d, e] [b, d, f]]

    let lists = LinkList::<LinkList<char>>::of_three(
        LinkList::<char>::of_two('a', 'b'), LinkList::<char>::of_two('c', 'd'), LinkList::<char>::of_two('e', 'f'));

    let combinations = lists.combinations();

    // println!("{:#?}", combinations);

    let correct = LinkList::<LinkList<char>>::of_eight(
        LinkList::<char>::of_three('a', 'c', 'e'),
        LinkList::<char>::of_three('a', 'c', 'f'),
        LinkList::<char>::of_three('a', 'd', 'e'),
        LinkList::<char>::of_three('a', 'd', 'f'),
        LinkList::<char>::of_three('b', 'c', 'e'),
        LinkList::<char>::of_three('b', 'c', 'f'),
        LinkList::<char>::of_three('b', 'd', 'e'),
        LinkList::<char>::of_three('b', 'd', 'f'),
    );

    assert_eq!(8, combinations.len()); // "There should be 8 combinations.",
    let mut combinations = combinations.clone();
    while !combinations.is_empty() {
        let combination = combinations.head().unwrap();
        assert!(!correct.find(&combination).is_empty()); // "Each combination should be in the output",
        combinations = combinations.tail().unwrap();
    }

}
