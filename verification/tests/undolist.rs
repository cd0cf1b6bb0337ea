use baccarat::undolist::UndoList;

#[test]
fn test_undo_list() {
    let mut undo_list = UndoList::<i32, 5>::new();
    assert_eq!(undo_list.len(), 0);
    undo_list.append(40);
    assert_eq!(undo_list.len(), 1);
    assert_eq!(undo_list.undo(), None);
    assert_eq!(undo_list.redo(), None);

    undo_list.append(41);
    undo_list.append(42);

    assert_eq!(undo_list.undo().unwrap(), 41);
    assert_eq!(undo_list.len(), 3);

    assert_eq!(undo_list.redo().unwrap(), 42);
    assert_eq!(undo_list.undo().unwrap(), 41);
    assert_eq!(undo_list.undo().unwrap(), 40);
    assert_eq!(undo_list.undo(), None);
    assert_eq!(undo_list.redo().unwrap(), 41);
    assert_eq!(undo_list.undo().unwrap(), 40);

    undo_list.append(51);
    undo_list.append(52);
    undo_list.append(53);
    undo_list.append(54);
    assert_eq!(undo_list.len(), 5);
    undo_list.append(55);
    assert_eq!(undo_list.len(), 5);

    assert_eq!(undo_list.undo().unwrap(), 54);
    assert_eq!(undo_list.undo().unwrap(), 53);
    undo_list.append(64);
    assert_eq!(undo_list.len(), 4);
    assert_eq!(undo_list.redo(), None);
    undo_list.append(65);
    assert_eq!(undo_list.len(), 5);
    undo_list.append(66);
    assert_eq!(undo_list.len(), 5);

    assert_eq!(undo_list.undo().unwrap(), 65);
    assert_eq!(undo_list.undo().unwrap(), 64);
    assert_eq!(undo_list.undo().unwrap(), 53);
    assert_eq!(undo_list.undo().unwrap(), 52);
    assert_eq!(undo_list.undo(), None);
    assert_eq!(undo_list.redo().unwrap(), 53);

    undo_list.append(74);
    assert_eq!(undo_list.len(), 3);
}

#[test]
fn undo_list_of_one_state() {
    let mut list = UndoList::<String, 1>::new();
    assert_eq!(list.undo(), None);
    assert_eq!(list.redo(), None);
    list.append(String::from("a"));
    list.append(String::from("b"));
    assert_eq!(list.len(), 1);
    assert_eq!(list.undo(), None);
    assert_eq!(list.redo(), None);
}

#[test]
fn undo_list_drops_the_oldest_state() {
    let mut list = UndoList::<u8, 3>::new();
    for i in 0..10 {
        list.append(i);
    }
    assert_eq!(list.len(), 3);
    assert_eq!(list.undo(), Some(8));
    assert_eq!(list.undo(), Some(7));
    assert_eq!(list.undo(), None);
    assert_eq!(list.redo(), Some(8));
    assert_eq!(list.redo(), Some(9));
    assert_eq!(list.redo(), None);
}
