use rowfile::table_index::{IndexIter, SearchIter};
use rowfile::{Error, Field, Table, TableIndex, TableTrait, Varchar};

#[derive(Debug, Copy, Clone)]
struct Person {
    id: usize,
    name: Varchar<20>,
    age: u32,
}

impl TableTrait for Person {
    fn id(&self) -> usize {
        self.id
    }

    fn set_id(&mut self, id: usize) {
        self.id = id;
    }

    fn block_size() -> usize {
        40
    }

    fn as_bytes(&self) -> Vec<u8> {
        let mut block = Vec::new();
        self.id.write(&mut block);
        self.name.write(&mut block);
        self.age.write(&mut block);
        block
    }

    fn from_bytes(block: &[u8]) -> Self {
        Person {
            id: usize::read(block, 0),
            name: Varchar::<20>::read(block, 8),
            age: u32::read(block, 36),
        }
    }
}

impl Person {
    fn new(name: &str, age: u32) -> Self {
        Self { id: 0, name: Varchar::<20>::new(name), age }
    }

    fn insert_with_index(&mut self, table: &mut Table, age_index: &mut Table) -> Result<usize, Error> {
        let id = self.insert(table)?;
        TableIndex::add(age_index, &self.age, id)?;
        Ok(id)
    }

    fn update_age(&mut self, age: u32, age_index: &mut Table) -> Result<(), Error> {
        TableIndex::exclude(age_index, &self.age, self.id)?;
        TableIndex::add(age_index, &age, self.id)?;
        self.age = age;
        Ok(())
    }
}

fn found(mut records: SearchIter<'_, u32>) -> Vec<usize> {
    let mut all = Vec::new();
    while let Some(id) = records.next() {
        all.push(id);
    }
    all
}

fn walked(mut records: IndexIter<'_, u32>) -> Vec<usize> {
    let mut all = Vec::new();
    while let Some(id) = records.next() {
        all.push(id);
    }
    all
}

fn index_of(entries: &[(u32, usize)]) -> Table {
    let mut index = Table::new::<TableIndex<u32>>("index.tbl");
    for (value, target) in entries {
        TableIndex::add(&mut index, value, *target).unwrap();
    }
    index
}

fn node(index: &Table, id: usize) -> TableIndex<u32> {
    TableIndex::<u32>::get(index, id).unwrap()
}

#[test]
fn test_table_index() {
    let mut table = Table::new::<Person>("test-index-person.tbl");
    let mut age_index = Table::new::<TableIndex<u32>>("test-index-person-age-index.tbl");

    // Insert a person with index
    let mut alex = Person::new("alex", 32);
    alex.insert_with_index(&mut table, &mut age_index).unwrap();

    // Update value with index
    alex.update_age(33, &mut age_index).unwrap();
    alex.update(&mut table).unwrap();

    assert_eq!(TableIndex::search_one(&age_index, &33u32), Ok(1));
    assert_eq!(TableIndex::search_one(&age_index, &32u32), Err(Error::NotFound));
    assert_eq!(Person::get(&table, 1).unwrap().age, 33);
}

#[test]
fn four_entries_with_a_tie() {
    let mut index = Table::new::<TableIndex<u32>>("index.tbl");
    TableIndex::add(&mut index, &10u32, 100).unwrap();
    TableIndex::add(&mut index, &5u32, 200).unwrap();
    TableIndex::add(&mut index, &15u32, 300).unwrap();
    TableIndex::add(&mut index, &5u32, 400).unwrap();

    assert_eq!(found(TableIndex::search_many(&index, &5u32)), vec![200, 400]);
    assert_eq!(walked(TableIndex::<u32>::iter(&index)), vec![200, 400, 100, 300]);

    assert_eq!(TableIndex::exclude(&mut index, &5u32, 200), Ok(()));
    assert_eq!(found(TableIndex::search_many(&index, &5u32)), vec![400]);
    assert_eq!(walked(TableIndex::<u32>::iter(&index)), vec![400, 100, 300]);
}

#[test]
fn node_block_layout() {
    assert_eq!(TableIndex::<u32>::block_size(), 36);
    assert_eq!(TableIndex::<u64>::block_size(), 40);
    let node = TableIndex { id: 1usize, value: 0x0a0b_0c0du32, table_id: 2, left: 3, right: 4 };
    let block = node.as_bytes();
    assert_eq!(
        block,
        vec![
            1u8, 0, 0, 0, 0, 0, 0, 0, 0x0d, 0x0c, 0x0b, 0x0a, 2, 0, 0, 0, 0, 0, 0, 0, 3, 0, 0, 0, 0,
            0, 0, 0, 4, 0, 0, 0, 0, 0, 0, 0
        ]
    );
    let back = TableIndex::<u32>::from_bytes(&block);
    assert_eq!((back.id, back.value, back.table_id, back.left, back.right), (1, 0x0a0b_0c0d, 2, 3, 4));
    let fresh = TableIndex::new(&7u32, 9);
    assert_eq!((fresh.id, fresh.value, fresh.table_id, fresh.left, fresh.right), (0, 7, 9, 0, 0));
}

#[test]
fn add_links_the_new_leaf() {
    let index = index_of(&[(10, 100), (5, 200), (15, 300), (5, 400), (12, 500)]);
    assert_eq!(index.size(), 5);
    let shape: Vec<(usize, u32, usize, usize, usize)> = (1..=5)
        .map(|id| {
            let n = node(&index, id);
            (n.id, n.value, n.table_id, n.left, n.right)
        })
        .collect();
    assert_eq!(
        shape,
        vec![
            (1, 10, 100, 2, 3),
            (2, 5, 200, 0, 4),
            (3, 15, 300, 5, 0),
            (4, 5, 400, 0, 0),
            (5, 12, 500, 0, 0)
        ]
    );
}

#[test]
fn rising_values_make_a_chain() {
    let index = index_of(&[(1, 1), (2, 2), (3, 3), (4, 4)]);
    for id in 1..=4usize {
        let n = node(&index, id);
        assert_eq!(n.left, 0);
        assert_eq!(n.right, if id < 4 { id + 1 } else { 0 });
    }
    assert_eq!(walked(TableIndex::<u32>::iter(&index)), vec![1, 2, 3, 4]);
}

#[test]
fn empty_index_yields_nothing() {
    let mut index = Table::new::<TableIndex<u32>>("index.tbl");
    assert_eq!(TableIndex::search_one(&index, &1u32), Err(Error::NotFound));
    assert_eq!(found(TableIndex::search_many(&index, &1u32)), vec![]);
    assert_eq!(walked(TableIndex::<u32>::iter(&index)), vec![]);
    assert_eq!(walked(TableIndex::iter_between(&index, &0u32, &9u32)), vec![]);
    assert_eq!(TableIndex::exclude(&mut index, &1u32, 1), Err(Error::NotFound));
    assert!(index.empty());
}

#[test]
fn search_yields_what_was_added() {
    let mut index = index_of(&[(7, 1), (3, 2), (9, 3)]);
    assert_eq!(TableIndex::search_one(&index, &4u32), Err(Error::NotFound));
    TableIndex::add(&mut index, &4u32, 44).unwrap();
    assert_eq!(TableIndex::search_one(&index, &4u32), Ok(44));
    assert_eq!(found(TableIndex::search_many(&index, &4u32)), vec![44]);
    TableIndex::add(&mut index, &4u32, 45).unwrap();
    assert_eq!(TableIndex::search_one(&index, &4u32), Ok(44));
    assert_eq!(found(TableIndex::search_many(&index, &4u32)), vec![44, 45]);
    assert_eq!(found(TableIndex::search_many(&index, &7u32)), vec![1]);
    assert_eq!(found(TableIndex::search_many(&index, &3u32)), vec![2]);
    assert_eq!(found(TableIndex::search_many(&index, &9u32)), vec![3]);
    assert_eq!(found(TableIndex::search_many(&index, &5u32)), vec![]);
}

#[test]
fn excluded_record_is_not_found_again() {
    let mut index = index_of(&[(7, 1), (3, 2), (9, 3), (3, 4), (3, 5)]);
    let shape_before: Vec<(usize, usize)> =
        (1..=5).map(|id| (node(&index, id).left, node(&index, id).right)).collect();
    assert_eq!(TableIndex::exclude(&mut index, &3u32, 4), Ok(()));
    assert_eq!(found(TableIndex::search_many(&index, &3u32)), vec![2, 5]);
    assert_eq!(TableIndex::search_one(&index, &3u32), Ok(2));
    assert_eq!(found(TableIndex::search_many(&index, &7u32)), vec![1]);
    assert_eq!(found(TableIndex::search_many(&index, &9u32)), vec![3]);
    assert_eq!(index.size(), 5);
    let shape_after: Vec<(usize, usize)> =
        (1..=5).map(|id| (node(&index, id).left, node(&index, id).right)).collect();
    assert_eq!(shape_after, shape_before);
    assert_eq!(node(&index, 4).table_id, 0);
    assert_eq!(node(&index, 4).value, 3);

    assert_eq!(TableIndex::exclude(&mut index, &3u32, 2), Ok(()));
    assert_eq!(TableIndex::search_one(&index, &3u32), Ok(5));
    assert_eq!(walked(TableIndex::<u32>::iter(&index)), vec![5, 1, 3]);
}

#[test]
fn exclude_needs_the_exact_pair() {
    let mut index = index_of(&[(7, 1), (3, 2), (9, 3)]);
    let before = index.contents();
    assert_eq!(TableIndex::exclude(&mut index, &3u32, 1), Err(Error::NotFound));
    assert_eq!(TableIndex::exclude(&mut index, &4u32, 2), Err(Error::NotFound));
    assert_eq!(TableIndex::exclude(&mut index, &3u32, 0), Err(Error::NotFound));
    assert_eq!(index.contents(), before);
    assert_eq!(TableIndex::exclude(&mut index, &3u32, 2), Ok(()));
    assert_eq!(TableIndex::exclude(&mut index, &3u32, 2), Err(Error::NotFound));
}

#[test]
fn only_the_first_of_equal_pairs_is_excluded() {
    let mut index = index_of(&[(3, 8), (3, 8), (3, 9)]);
    assert_eq!(TableIndex::exclude(&mut index, &3u32, 8), Ok(()));
    assert_eq!(found(TableIndex::search_many(&index, &3u32)), vec![8, 9]);
    assert_eq!(node(&index, 1).table_id, 0);
    assert_eq!(node(&index, 2).table_id, 8);
}

#[test]
fn walk_is_in_value_order_whatever_the_order_of_adding() {
    let values = [4u32, 1, 3, 2];
    let mut orders: Vec<Vec<u32>> = Vec::new();
    for a in 0..4 {
        for b in 0..4 {
            for c in 0..4 {
                for d in 0..4 {
                    let picked = [a, b, c, d];
                    let mut seen = [false; 4];
                    for p in picked {
                        seen[p] = true;
                    }
                    if seen.iter().all(|s| *s) {
                        orders.push(picked.iter().map(|p| values[*p]).collect());
                    }
                }
            }
        }
    }
    assert_eq!(orders.len(), 24);
    for order in orders {
        let entries: Vec<(u32, usize)> = order.iter().map(|v| (*v, *v as usize * 10)).collect();
        let index = index_of(&entries);
        assert_eq!(walked(TableIndex::<u32>::iter(&index)), vec![10, 20, 30, 40]);
    }
}

#[test]
fn walk_between_is_the_part_of_the_walk() {
    let entries: [(u32, usize); 9] =
        [(50, 1), (20, 2), (70, 3), (20, 4), (10, 5), (60, 6), (80, 7), (30, 8), (70, 9)];
    let mut index = index_of(&entries);
    TableIndex::exclude(&mut index, &20u32, 2).unwrap();
    TableIndex::exclude(&mut index, &60u32, 6).unwrap();

    let mut in_order: Vec<(u32, usize)> = Vec::new();
    let mut keys: Vec<u32> = entries.iter().map(|e| e.0).collect();
    keys.sort();
    keys.dedup();
    for key in keys {
        for (value, target) in entries {
            if value == key && target != 2 && target != 6 {
                in_order.push((value, target));
            }
        }
    }
    let whole: Vec<usize> = in_order.iter().map(|e| e.1).collect();
    assert_eq!(walked(TableIndex::<u32>::iter(&index)), whole);
    assert_eq!(whole, vec![5, 4, 8, 1, 3, 9, 7]);

    for from in 0..=90u32 {
        for to in 0..=90u32 {
            let expected: Vec<usize> =
                in_order.iter().filter(|e| from <= e.0 && e.0 < to).map(|e| e.1).collect();
            assert_eq!(walked(TableIndex::iter_between(&index, &from, &to)), expected);
        }
    }
    assert_eq!(walked(TableIndex::iter_between(&index, &20u32, &70u32)), vec![4, 8, 1]);
}

#[test]
fn walk_stays_ended_at_the_upper_bound() {
    let index = index_of(&[(5, 1), (3, 2), (8, 3), (9, 4)]);
    let mut walk = TableIndex::iter_between(&index, &0u32, &8u32);
    assert_eq!(walk.next(), Some(2));
    assert_eq!(walk.next(), Some(1));
    assert_eq!(walk.next(), None);
    assert_eq!(walk.next(), None);
    assert_eq!(walk.next(), None);
}

#[test]
fn walk_can_be_left_and_started_again() {
    let index = index_of(&[(5, 1), (3, 2), (8, 3)]);
    let mut first = TableIndex::<u32>::iter(&index);
    assert_eq!(first.next(), Some(2));
    let mut second = TableIndex::<u32>::iter(&index);
    assert_eq!(second.next(), Some(2));
    assert_eq!(second.next(), Some(1));
    assert_eq!(first.next(), Some(1));
    assert_eq!(first.next(), Some(3));
    assert_eq!(first.next(), None);
    assert_eq!(first.next(), None);
}

#[test]
fn node_without_record_is_passed_over() {
    let index = index_of(&[(5, 1), (3, 0), (8, 3), (3, 7)]);
    assert_eq!(found(TableIndex::search_many(&index, &3u32)), vec![7]);
    assert_eq!(TableIndex::search_one(&index, &3u32), Ok(7));
    assert_eq!(walked(TableIndex::<u32>::iter(&index)), vec![7, 1, 3]);
}

#[test]
fn indexes_on_wider_values() {
    let mut index = Table::new::<TableIndex<u64>>("wide.tbl");
    assert_eq!(index.block_size(), 40);
    for (value, target) in [(1u64 << 40, 1usize), (7, 2), (u64::MAX, 3)] {
        TableIndex::add(&mut index, &value, target).unwrap();
    }
    let mut walk = TableIndex::<u64>::iter(&index);
    assert_eq!(walk.next(), Some(2));
    assert_eq!(walk.next(), Some(1));
    assert_eq!(walk.next(), Some(3));
    assert_eq!(walk.next(), None);
    assert_eq!(TableIndex::search_one(&index, &u64::MAX), Ok(3));
}

#[test]
fn indexes_on_names() {
    let mut index = Table::new::<TableIndex<Varchar<8>>>("names.tbl");
    assert_eq!(index.block_size(), 48);
    let names = ["carol", "bob", "dave", "al", "bob"];
    for (at, name) in names.iter().enumerate() {
        TableIndex::add(&mut index, &Varchar::<8>::new(name), at + 1).unwrap();
    }
    let bob = Varchar::<8>::new("bob");
    assert_eq!(TableIndex::search_one(&index, &bob), Ok(2));
    let mut bobs = TableIndex::search_many(&index, &bob);
    assert_eq!(bobs.next(), Some(2));
    assert_eq!(bobs.next(), Some(5));
    assert_eq!(bobs.next(), None);
    assert_eq!(TableIndex::search_one(&index, &Varchar::<8>::new("eve")), Err(Error::NotFound));

    let mut walk = TableIndex::<Varchar<8>>::iter(&index);
    let mut order = Vec::new();
    while let Some(id) = walk.next() {
        order.push(names[id - 1]);
    }
    assert_eq!(order, vec!["al", "bob", "bob", "dave", "carol"]);

    let mut short = TableIndex::iter_between(&index, &Varchar::<8>::new("bob"), &Varchar::<8>::new("aaaa"));
    assert_eq!(short.next(), Some(2));
    assert_eq!(short.next(), Some(5));
    assert_eq!(short.next(), None);
}

fn stored(nodes: &[(usize, u32, usize, usize, usize)]) -> Table {
    let mut data = Vec::new();
    for (id, value, table_id, left, right) in nodes {
        let node = TableIndex { id: *id, value: *value, table_id: *table_id, left: *left, right: *right };
        data.extend_from_slice(&node.as_bytes());
    }
    Table::open::<TableIndex<u32>>("stored.tbl", &data)
}

#[test]
fn index_that_was_built_holds() {
    let mut index = index_of(&[(10, 100), (5, 200), (15, 300), (5, 400), (12, 500)]);
    assert!(TableIndex::<u32>::holds_index(&index));
    assert!(TableIndex::<u32>::holds_search_tree(&index));
    TableIndex::exclude(&mut index, &5u32, 200).unwrap();
    assert!(TableIndex::<u32>::holds_index(&index));
    assert!(TableIndex::<u32>::holds_search_tree(&index));
    let none = Table::new::<TableIndex<u32>>("none.tbl");
    assert!(TableIndex::<u32>::holds_index(&none));
    assert!(TableIndex::<u32>::holds_search_tree(&none));
}

#[test]
fn opened_index_is_searched_after_it_was_found_to_hold() {
    let index = index_of(&[(10, 100), (5, 200), (15, 300)]);
    let mut opened = Table::open::<TableIndex<u32>>("copy.tbl", &index.contents());
    assert!(TableIndex::<u32>::holds_index(&opened));
    assert!(TableIndex::<u32>::holds_search_tree(&opened));
    assert_eq!(TableIndex::search_one(&opened, &15u32), Ok(300));
    TableIndex::add(&mut opened, &7u32, 700).unwrap();
    assert_eq!(walked(TableIndex::<u32>::iter(&opened)), vec![200, 700, 100, 300]);
}

#[test]
fn table_of_other_blocks_holds_no_index() {
    let mut people = Table::new::<Person>("people.tbl");
    Person::new("ann", 3).insert(&mut people).unwrap();
    assert!(!TableIndex::<u32>::holds_index(&people));
    assert!(!TableIndex::<u32>::holds_search_tree(&people));
    let wide = Table::new::<TableIndex<u64>>("wide.tbl");
    assert!(!TableIndex::<u32>::holds_index(&wide));
}

#[test]
fn broken_links_hold_no_index() {
    assert!(TableIndex::<u32>::holds_index(&stored(&[(1, 10, 1, 2, 0), (2, 5, 2, 0, 0)])));
    // an identity that is not that of the slot
    assert!(!TableIndex::<u32>::holds_index(&stored(&[(1, 10, 1, 2, 0), (3, 5, 2, 0, 0)])));
    assert!(!TableIndex::<u32>::holds_index(&stored(&[(0, 10, 1, 0, 0)])));
    // a child beyond the last node
    assert!(!TableIndex::<u32>::holds_index(&stored(&[(1, 10, 1, 3, 0), (2, 5, 2, 0, 0)])));
    assert!(!TableIndex::<u32>::holds_index(&stored(&[(1, 10, 1, 0, 3), (2, 5, 2, 0, 0)])));
    // a child that is the node itself, or a node before it
    assert!(!TableIndex::<u32>::holds_index(&stored(&[(1, 10, 1, 1, 0)])));
    assert!(!TableIndex::<u32>::holds_index(&stored(&[(1, 10, 1, 2, 0), (2, 5, 2, 0, 1)])));
    assert!(!TableIndex::<u32>::holds_search_tree(&stored(&[(1, 10, 1, 2, 0), (2, 5, 2, 0, 1)])));
}

#[test]
fn misplaced_values_make_no_search_tree() {
    // a greater value to the left
    let left = stored(&[(1, 10, 1, 2, 0), (2, 20, 2, 0, 0)]);
    assert!(TableIndex::<u32>::holds_index(&left));
    assert!(!TableIndex::<u32>::holds_search_tree(&left));
    // a smaller value to the right
    let right = stored(&[(1, 10, 1, 0, 2), (2, 5, 2, 0, 0)]);
    assert!(!TableIndex::<u32>::holds_search_tree(&right));
    // an equal value to the left
    let tie = stored(&[(1, 10, 1, 2, 0), (2, 10, 2, 0, 0)]);
    assert!(!TableIndex::<u32>::holds_search_tree(&tie));
    let tie_right = stored(&[(1, 10, 1, 0, 2), (2, 10, 2, 0, 0)]);
    assert!(TableIndex::<u32>::holds_search_tree(&tie_right));
    // a value that fits its parent but not the root
    let deep = stored(&[(1, 10, 1, 2, 0), (2, 5, 2, 0, 3), (3, 12, 3, 0, 0)]);
    assert!(TableIndex::<u32>::holds_index(&deep));
    assert!(!TableIndex::<u32>::holds_search_tree(&deep));
    let fine = stored(&[(1, 10, 1, 2, 0), (2, 5, 2, 0, 3), (3, 7, 3, 0, 0)]);
    assert!(TableIndex::<u32>::holds_search_tree(&fine));
    // a node that nothing leads to is not looked at
    let loose = stored(&[(1, 10, 1, 0, 0), (2, 5, 2, 0, 0)]);
    assert!(TableIndex::<u32>::holds_search_tree(&loose));
}

#[test]
fn walk_from_a_value_on_in_any_index() {
    // the walk goes by the links, also where the values are misplaced
    let odd = stored(&[(1, 10, 1, 2, 3), (2, 20, 2, 0, 0), (3, 4, 3, 0, 0)]);
    assert_eq!(walked(TableIndex::<u32>::iter(&odd)), vec![2, 1, 3]);
    assert_eq!(walked(TableIndex::iter_between(&odd, &0u32, &100u32)), vec![2, 1, 3]);
    assert_eq!(walked(TableIndex::iter_between(&odd, &10u32, &100u32)), vec![1, 3]);
    assert_eq!(walked(TableIndex::iter_between(&odd, &11u32, &100u32)), vec![]);
    assert_eq!(walked(TableIndex::iter_between(&odd, &0u32, &15u32)), vec![]);
}
