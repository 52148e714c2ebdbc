use rowfile::table_trait::RecordIter;
use rowfile::{Error, Field, Table, TableTrait, Varchar};

#[derive(Debug, Copy, Clone, PartialEq)]
struct Person {
    id: usize,
    name: Varchar<20>,
    age: u32,
}

impl TableTrait for Person {
    fn id(&self) -> usize {
        self.id
    }

    fn set_id(&mut self, id: usize) {
        self.id = id;
    }

    fn block_size() -> usize {
        40
    }

    fn as_bytes(&self) -> Vec<u8> {
        let mut block = Vec::new();
        self.id.write(&mut block);
        self.name.write(&mut block);
        self.age.write(&mut block);
        block
    }

    fn from_bytes(block: &[u8]) -> Self {
        Person {
            id: usize::read(block, 0),
            name: Varchar::<20>::read(block, 8),
            age: u32::read(block, 36),
        }
    }
}

impl Person {
    fn new(name: &str, age: u32) -> Self {
        Self { id: 0, name: Varchar::<20>::new(name), age }
    }
}

/// A record whose block has 48 bytes.
#[derive(Debug, Copy, Clone, PartialEq)]
struct Note {
    id: usize,
    text: Varchar<32>,
}

impl TableTrait for Note {
    fn id(&self) -> usize {
        self.id
    }

    fn set_id(&mut self, id: usize) {
        self.id = id;
    }

    fn block_size() -> usize {
        48
    }

    fn as_bytes(&self) -> Vec<u8> {
        let mut block = Vec::new();
        self.id.write(&mut block);
        self.text.write(&mut block);
        block
    }

    fn from_bytes(block: &[u8]) -> Self {
        Note { id: usize::read(block, 0), text: Varchar::<32>::read(block, 8) }
    }
}

fn drain(mut records: RecordIter<'_, Person>) -> Vec<Person> {
    let mut all = Vec::new();
    while let Some(person) = records.next() {
        all.push(person);
    }
    all
}

fn people(ages: &[u32]) -> Table {
    let mut table = Table::new::<Person>("people.tbl");
    for age in ages {
        Person::new("someone", *age).insert(&mut table).unwrap();
    }
    table
}

fn age_of(block: &[u8]) -> u32 {
    Person::from_bytes(block).age
}

#[test]
fn test_basic() {
    let mut table = Table::new::<Person>("test-trait-person.tbl");

    let mut alex = Person::new("alex", 32);

    // Insert
    alex.insert(&mut table).unwrap();
    assert_eq!(alex.id, 1);
    assert_eq!(table.size(), 1);

    // Update
    alex.age = 33;
    alex.update(&mut table).unwrap();
    let alex2 = Person::get(&table, 1).unwrap();
    assert_eq!(alex2.id, 1);
    assert_eq!(alex2.age, 33);

    // All
    let persons: Vec<Person> = drain(Person::all(&table));
    assert_eq!(persons.len(), 1);
    assert_eq!(persons[0].id, 1);
}

#[test]
fn new_table_is_empty() {
    let table = Table::new::<Person>("people.tbl");
    assert_eq!(table.path(), "people.tbl");
    assert_eq!(table.block_size(), 40);
    assert_eq!(table.size(), 0);
    assert!(table.empty());
    assert_eq!(Person::get_first(&table), Err(Error::NotFound));
    assert_eq!(Person::get_first_id(&table), Err(Error::NotFound));
    assert_eq!(drain(Person::all(&table)), vec![]);
}

#[test]
fn inserted_record_reads_back_under_next_identity() {
    let mut table = Table::new::<Person>("people.tbl");
    for (count, name) in ["ann", "bob", "cy"].iter().enumerate() {
        let mut person = Person::new(name, 20 + count as u32);
        assert_eq!(table.size(), count);
        assert_eq!(person.insert(&mut table), Ok(count + 1));
        assert_eq!(person.id, count + 1);
        let stored = Person::get(&table, count + 1).unwrap();
        assert_eq!(stored, person);
        assert_eq!(stored.name.to_string(), String::from(*name));
        assert_eq!(table.get(count).unwrap(), person.as_bytes());
    }
    assert!(!table.empty());
    assert_eq!(Person::get_first_id(&table), Ok(1));
    assert_eq!(Person::get_first(&table).unwrap().name.to_string(), "ann");
}

#[test]
fn record_with_identity_is_not_inserted() {
    let mut table = Table::new::<Person>("people.tbl");
    let mut ann = Person::new("ann", 20);
    ann.insert(&mut table).unwrap();
    let before = table.contents();
    assert_eq!(ann.insert(&mut table), Err(Error::InvalidArgument));
    assert_eq!(ann.id, 1);
    assert_eq!(table.size(), 1);
    assert_eq!(table.contents(), before);
    let mut other = Person { id: 7, name: Varchar::<20>::new("x"), age: 1 };
    assert_eq!(other.insert(&mut table), Err(Error::InvalidArgument));
    assert_eq!(other.id, 7);
    assert_eq!(table.contents(), before);
}

#[test]
fn lookup_outside_the_table_is_not_found() {
    let table = people(&[1, 2]);
    assert_eq!(Person::get(&table, 0), Err(Error::NotFound));
    assert_eq!(Person::get(&table, 3), Err(Error::NotFound));
    assert_eq!(Person::get_index_by_id(&table, 0), Err(Error::NotFound));
    assert_eq!(Person::get_index_by_id(&table, 1), Ok(0));
    assert_eq!(Person::get_index_by_id(&table, 2), Ok(1));
    assert_eq!(Person::get_index_by_id(&table, 3), Err(Error::NotFound));
}

#[test]
fn update_of_unknown_identity_changes_nothing() {
    let mut table = people(&[1, 2]);
    let before = table.contents();
    let ghost = Person { id: 3, name: Varchar::<20>::new("x"), age: 9 };
    assert_eq!(ghost.update(&mut table), Err(Error::NotFound));
    let unsaved = Person::new("y", 9);
    assert_eq!(unsaved.update(&mut table), Err(Error::NotFound));
    assert_eq!(table.contents(), before);
    let second = Person { id: 2, name: Varchar::<20>::new("z"), age: 77 };
    assert_eq!(second.update(&mut table), Ok(()));
    assert_eq!(Person::get(&table, 2), Ok(second));
    assert_eq!(Person::get(&table, 1).unwrap().age, 1);
}

#[test]
fn slot_beyond_the_last_is_not_found() {
    let mut table = Table::new::<Note>("notes.tbl");
    assert_eq!(table.block_size(), 48);
    for text in ["one", "two", "three"] {
        let mut note = Note { id: 0, text: Varchar::<32>::new(text) };
        note.insert(&mut table).unwrap();
    }
    assert_eq!(table.size(), 3);
    assert_eq!(table.get(3), Err(Error::NotFound));
    let block = vec![0u8; 48];
    assert_eq!(table.update(&block, 3), Err(Error::NotFound));
    assert_eq!(table.size(), 3);
    assert_eq!(table.get(2).unwrap().len(), 48);
    assert_eq!(table.update(&block, 2), Ok(()));
    assert_eq!(table.get(2), Ok(block));
    assert_eq!(Note::get(&table, 2).unwrap().text.to_string(), "two");
}

#[test]
fn append_returns_the_new_slot() {
    let mut table = Table::new::<Note>("notes.tbl");
    let first = vec![1u8; 48];
    let second = vec![2u8; 48];
    assert_eq!(table.append(&first), Ok(0));
    assert_eq!(table.append(&second), Ok(1));
    assert_eq!(table.size(), 2);
    assert_eq!(table.get(0), Ok(first));
    assert_eq!(table.get(1), Ok(second));
}

#[test]
fn blocks_come_in_slot_order() {
    let table = people(&[5, 6, 7, 8]);
    let mut all = table.iter();
    let mut ages = Vec::new();
    while let Some(block) = all.next() {
        ages.push(age_of(&block));
    }
    assert_eq!(ages, vec![5, 6, 7, 8]);
    assert_eq!(all.next(), None);

    let mut some = table.iter_between(1, 3).unwrap();
    assert_eq!(some.next().map(|b| age_of(&b)), Some(6));
    assert_eq!(some.next().map(|b| age_of(&b)), Some(7));
    assert_eq!(some.next(), None);

    let mut none = table.iter_between(3, 3).unwrap();
    assert_eq!(none.next(), None);
    let mut backwards = table.iter_between(3, 1).unwrap();
    assert_eq!(backwards.next(), None);

    let mut again = table.iter_between(1, 3).unwrap();
    assert_eq!(again.next().map(|b| age_of(&b)), Some(6));
}

#[test]
fn find_sorted_agrees_with_a_scan() {
    let ages = [3u32, 3, 5, 8, 8, 8, 13, 21];
    for count in 0..=ages.len() {
        let table = people(&ages[..count]);
        for target in 0..25u32 {
            let mut expected = 0;
            while expected < count && ages[expected] < target {
                expected += 1;
            }
            assert_eq!(table.find_sorted(target, &age_of), expected);
        }
    }
}

#[test]
fn find_sorted_stops_at_a_change_in_any_table() {
    let ages = [9u32, 2, 7, 1, 8, 4];
    let table = people(&ages);
    for target in 0..11u32 {
        let at = table.find_sorted(target, &age_of);
        assert!(at <= ages.len());
        assert!(at == 0 || ages[at - 1] < target);
        assert!(at == ages.len() || ages[at] >= target);
    }
    assert_eq!(table.find_sorted(5u32, &age_of), 6);
    assert_eq!(table.find_sorted(2u32, &age_of), 4);
}

#[test]
fn records_between_two_values_of_a_sorted_table() {
    let table = people(&[10, 20, 20, 30, 40]);
    let by_age = |p: &Person| p.age;
    let ids = |records: RecordIter<'_, Person>| -> Vec<usize> {
        drain(records).iter().map(|p| p.id).collect()
    };
    assert_eq!(ids(Person::iter_between(&table, 20u32, 40u32, &by_age)), vec![2, 3, 4]);
    assert_eq!(ids(Person::iter_between(&table, 0u32, 100u32, &by_age)), vec![1, 2, 3, 4, 5]);
    assert_eq!(ids(Person::iter_between(&table, 21u32, 30u32, &by_age)), vec![]);
    assert_eq!(ids(Person::iter_between(&table, 21u32, 31u32, &by_age)), vec![4]);
    assert_eq!(ids(Person::iter_between(&table, 40u32, 20u32, &by_age)), vec![]);
    assert_eq!(ids(Person::iter_between(&table, 41u32, 50u32, &by_age)), vec![]);
}

#[test]
fn stored_bytes_open_as_the_same_table() {
    let table = people(&[1, 2, 3]);
    let data = table.contents();
    assert_eq!(data.len(), 120);
    let opened = Table::open::<Person>("copy.tbl", &data);
    assert_eq!(opened.path(), "copy.tbl");
    assert_eq!(opened.size(), 3);
    assert_eq!(Person::get(&opened, 2), Person::get(&table, 2));
    assert_eq!(opened.contents(), data);

    let mut longer = data.clone();
    longer.extend_from_slice(&[1, 2, 3]);
    let cut = Table::open::<Person>("cut.tbl", &longer);
    assert_eq!(cut.size(), 3);
    assert_eq!(cut.contents(), data);

    let none = Table::open::<Person>("none.tbl", &[]);
    assert!(none.empty());
}
