use almost_union_find::commands::{decode, run, Command, Fault};
use almost_union_find::parse::parse_line;
use almost_union_find::union_find::UnionFind;

#[test]
fn lines_name_operations() {
    assert_eq!(decode(&vec![1, 1, 2], 5), Ok(Command::Union { p: 0, q: 1 }));
    assert_eq!(decode(&vec![2, 5, 1], 5), Ok(Command::Move { p: 4, q: 0 }));
    assert_eq!(decode(&vec![3, 4], 5), Ok(Command::Query { p: 3 }));
    assert_eq!(decode(&vec![3, 4, 9, 9], 5), Ok(Command::Query { p: 3 }));
    assert_eq!(decode(&vec![4, 1, 1], 5), Ok(Command::Skip));
    assert_eq!(decode(&vec![0], 5), Ok(Command::Skip));
}

#[test]
fn lines_that_lack_an_element() {
    assert_eq!(decode(&vec![], 5), Err(Fault::MissingArgument));
    assert_eq!(decode(&vec![1], 5), Err(Fault::MissingArgument));
    assert_eq!(decode(&vec![1, 2], 5), Err(Fault::MissingArgument));
    assert_eq!(decode(&vec![2, 2], 5), Err(Fault::MissingArgument));
    assert_eq!(decode(&vec![3], 5), Err(Fault::MissingArgument));
}

#[test]
fn numbers_that_name_no_element() {
    assert_eq!(decode(&vec![1, 0, 2], 5), Err(Fault::InvalidArgument));
    assert_eq!(decode(&vec![1, 2, 6], 5), Err(Fault::InvalidArgument));
    assert_eq!(decode(&vec![2, 6, 1], 5), Err(Fault::InvalidArgument));
    assert_eq!(decode(&vec![3, 0], 5), Err(Fault::InvalidArgument));
    assert_eq!(decode(&vec![3, 1], 0), Err(Fault::InvalidArgument));
    assert_eq!(decode(&vec![3, usize::MAX], 5), Err(Fault::InvalidArgument));
}

#[test]
fn a_stream_of_operations() {
    let input = ["1 1 2", "3 1", "1 3 4", "1 1 3", "3 4", "2 2 5", "3 2", "3 1", "7"];
    assert!(UnionFind::supports(5));
    let mut forest = UnionFind::new(5);
    let mut printed: Vec<(u64, u64)> = Vec::new();
    for line in input {
        let parameters = parse_line(String::from(line)).unwrap();
        let command = decode(&parameters, forest.len()).unwrap();
        if let Some(answer) = run(&mut forest, command) {
            printed.push(answer);
        }
    }
    assert_eq!(printed, vec![(2, 3), (4, 10), (2, 7), (3, 8)]);
}

#[test]
fn only_a_query_reports() {
    assert!(UnionFind::supports(3));
    let mut forest = UnionFind::new(3);
    assert_eq!(run(&mut forest, Command::Union { p: 0, q: 1 }), None);
    assert_eq!(run(&mut forest, Command::Move { p: 2, q: 0 }), None);
    assert_eq!(run(&mut forest, Command::Skip), None);
    assert_eq!(run(&mut forest, Command::Query { p: 1 }), Some((3, 6)));
}
