use pfds::list::suffixes;

#[test]
fn suffixes_test() {
    let mut lst = Vec::new();
    lst.push(1);
    lst.push(2);
    lst.push(3);
    lst.push(4);
    println!("list: {:?}", lst);
    println!("suffixes(&lst): {:?}", suffixes(&lst));
}

#[test]
fn suffixes_contents() {
    let lst = vec![1, 2, 3, 4];
    let sufs = suffixes(&lst);
    assert_eq!(sufs.len(), 5);
    assert_eq!(sufs[0], vec![1, 2, 3, 4]);
    assert_eq!(sufs[1], vec![2, 3, 4]);
    assert_eq!(sufs[2], vec![3, 4]);
    assert_eq!(sufs[3], vec![4]);
    assert_eq!(sufs[4], Vec::<i32>::new());

    let empty: Vec<i32> = Vec::new();
    let esufs = suffixes(&empty);
    assert_eq!(esufs.len(), 1);
    assert_eq!(esufs[0], Vec::<i32>::new());
}
