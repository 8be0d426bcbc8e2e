use rusty_todo::descriptor::Descriptor;
use rusty_todo::error::TodoError;
use rusty_todo::input::parse_ids;
use rusty_todo::printer::{Printer, Style};
use rusty_todo::store::Todos;

fn texts(t: &Todos) -> Vec<(usize, String)> {
    t.to_pairs().into_iter().map(|(d, s)| (d.id, s)).collect()
}

fn plain_text(p: &Printer) -> String {
    p.segments().iter().map(|s| s.text.clone()).collect::<Vec<_>>().concat()
}

fn three() -> Todos {
    let mut t = Todos::new();
    t.add("a".to_string(), 3, None).unwrap();
    t.add("b".to_string(), 2, None).unwrap();
    t.add("c".to_string(), 1, None).unwrap();
    t
}

#[test]
fn add_rejects_blank_text() {
    let mut t = Todos::new();
    assert_eq!(t.add("".to_string(), 0, None), Err(TodoError::InvalidTask));
    assert_eq!(t.add("   ".to_string(), 1, None), Err(TodoError::InvalidTask));
    assert_eq!(t.len(), 0);
    t.add("x".to_string(), 0, None).unwrap();
    assert_eq!(t.add("\t\n".to_string(), 0, None), Err(TodoError::InvalidTask));
    assert_eq!(texts(&t), vec![(1, "x".to_string())]);
}

#[test]
fn basic_lifecycle() {
    let mut t = Todos::new();
    assert_eq!(t.add("buy milk".to_string(), 0, None), Ok(1));
    assert_eq!(t.add("fix bug".to_string(), 2, Some("work".to_string())), Ok(1));
    assert_eq!(texts(&t), vec![(1, "fix bug".to_string()), (2, "buy milk".to_string())]);
    let (d, s) = t.get(2).unwrap();
    assert_eq!(s, "buy milk");
    assert_eq!(d.priority, 0);
    let listing = t.list();
    let segs = listing.segments();
    assert_eq!(segs[0].text, "fix bug");
    assert_eq!(segs[0].style, Style::Plain);
    assert_eq!(plain_text(&listing), "fix bug (1) (work) (**)\n\nbuy milk (2)\n");
}

#[test]
fn same_block_keeps_insertion_order() {
    let mut t = Todos::new();
    assert_eq!(t.add("first".to_string(), 1, None), Ok(1));
    assert_eq!(t.add("second".to_string(), 1, None), Ok(2));
    assert_eq!(t.add("third".to_string(), 1, None), Ok(3));
    assert_eq!(
        texts(&t),
        vec![(1, "first".to_string()), (2, "second".to_string()), (3, "third".to_string())]
    );
    t.reindex();
    t.reindex();
    assert_eq!(
        texts(&t),
        vec![(1, "first".to_string()), (2, "second".to_string()), (3, "third".to_string())]
    );
}

#[test]
fn groups_order_within_priority() {
    let mut t = Todos::new();
    t.add("none".to_string(), 1, None).unwrap();
    t.add("alpha".to_string(), 1, Some("a".to_string())).unwrap();
    t.add("beta".to_string(), 1, Some("b".to_string())).unwrap();
    // display order is the descending order: later groups first, no group last
    assert_eq!(
        texts(&t),
        vec![(1, "beta".to_string()), (2, "alpha".to_string()), (3, "none".to_string())]
    );
    assert_eq!(
        plain_text(&t.list()),
        "beta (1) (b) (*)\n\nalpha (2) (a) (*)\n\nnone (3) (*)\n"
    );
}

#[test]
fn batch_delete_with_mixed_validity() {
    let mut t = three();
    assert_eq!(texts(&t), vec![(1, "a".to_string()), (2, "b".to_string()), (3, "c".to_string())]);
    let (ids, bad) = parse_ids("2, 5, x");
    assert_eq!(ids, vec![2, 5]);
    assert_eq!(bad, vec!["x".to_string()]);
    let report = t.delete(&ids);
    assert_eq!(report.removed, vec![(2, "b".to_string())]);
    assert_eq!(report.missing, vec![5]);
    assert_eq!(texts(&t), vec![(1, "a".to_string()), (2, "c".to_string())]);
}

#[test]
fn delete_single_and_all() {
    let mut t = three();
    let report = t.delete(&vec![1]);
    assert_eq!(report.removed, vec![(1, "a".to_string())]);
    assert!(report.missing.is_empty());
    assert_eq!(texts(&t), vec![(1, "b".to_string()), (2, "c".to_string())]);
    let report = t.delete(&vec![2, 1, 0]);
    // store iteration order: lowest priority first
    assert_eq!(report.removed, vec![(2, "c".to_string()), (1, "b".to_string())]);
    assert_eq!(report.missing, vec![0]);
    assert_eq!(t.len(), 0);
    assert_eq!(plain_text(&t.list()), "Nothing!\n");
    assert_eq!(t.list().segments()[0].style, Style::Purple);
}

#[test]
fn delete_reports_each_missing_id_once() {
    let mut t = three();
    let report = t.delete(&vec![5, 3, 5, 9, 3, 9]);
    assert_eq!(report.removed, vec![(3, "c".to_string())]);
    assert_eq!(report.missing, vec![5, 9]);
    assert_eq!(texts(&t), vec![(1, "a".to_string()), (2, "b".to_string())]);
}

#[test]
fn delete_confirms_in_ascending_order() {
    let mut t = Todos::new();
    t.add("low".to_string(), 0, None).unwrap();
    t.add("high".to_string(), 3, None).unwrap();
    let report = t.delete(&vec![1, 2]);
    assert_eq!(report.removed, vec![(2, "low".to_string()), (1, "high".to_string())]);
    assert_eq!(t.len(), 0);
}

#[test]
fn edit_changes_rank() {
    let mut t = three();
    t.delete(&vec![3]);
    t.add("low".to_string(), 0, None).unwrap();
    assert_eq!(t.get(3).unwrap().1, "low");
    assert_eq!(t.get(3).unwrap().0.priority, 0);
    assert_eq!(t.edit(3, 5, None), Ok(1));
    assert_eq!(texts(&t), vec![(1, "low".to_string()), (2, "a".to_string()), (3, "b".to_string())]);
    assert_eq!(t.get(1).unwrap().0.priority, 5);
}

#[test]
fn edit_missing_task() {
    let mut t = three();
    assert_eq!(t.edit(4, 1, None), Err(TodoError::TaskNotFound));
    assert_eq!(t.edit(0, 1, None), Err(TodoError::TaskNotFound));
    assert_eq!(texts(&t), vec![(1, "a".to_string()), (2, "b".to_string()), (3, "c".to_string())]);
    assert!(t.get(4).is_none());
    assert!(t.get(0).is_none());
}

#[test]
fn edit_group_moves_task() {
    let mut t = three();
    assert_eq!(t.edit(3, 3, Some("z".to_string())), Ok(1));
    assert_eq!(t.get(1).unwrap().0.group, Some("z".to_string()));
    assert_eq!(texts(&t), vec![(1, "c".to_string()), (2, "a".to_string()), (3, "b".to_string())]);
}

#[test]
fn ids_dense_after_mutations() {
    let mut t = Todos::new();
    for (i, p) in [0u8, 3, 1, 2, 1, 0].iter().enumerate() {
        t.add(format!("task {i}"), *p, None).unwrap();
    }
    t.delete(&vec![2, 4]);
    t.edit(1, 0, Some("g".to_string())).unwrap();
    let ids: Vec<usize> = t.to_pairs().iter().map(|(d, _)| d.id).collect();
    assert_eq!(ids, vec![1, 2, 3, 4]);
    let pairs = t.to_pairs();
    for w in pairs.windows(2) {
        assert!(w[0].0.priority >= w[1].0.priority);
    }
}

#[test]
fn load_reinserts_and_reindexes() {
    let pairs = vec![
        (Descriptor { priority: 0, id: 7, group: None }, "low".to_string()),
        (Descriptor { priority: 2, id: 9, group: None }, "high".to_string()),
        (Descriptor { priority: 2, id: 4, group: None }, "higher".to_string()),
    ];
    let t = Todos::from_pairs(pairs).unwrap();
    assert_eq!(
        texts(&t),
        vec![(1, "higher".to_string()), (2, "high".to_string()), (3, "low".to_string())]
    );
}

#[test]
fn load_rejects_duplicates() {
    let pairs = vec![
        (Descriptor { priority: 1, id: 1, group: Some("g".to_string()) }, "x".to_string()),
        (Descriptor { priority: 1, id: 1, group: Some("g".to_string()) }, "y".to_string()),
    ];
    assert_eq!(Todos::from_pairs(pairs).err(), Some(TodoError::DuplicateDescriptor));
}
