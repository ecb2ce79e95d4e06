use rand::Rng;
use routing::crypto::{PublicEncryptKey, PublicSignKey};
use routing::name_type::{closer_to_target, NameType, NAME_TYPE_LEN};
use routing::public_id::PublicId;
use routing::routing_table::{
    Connection, NodeInfo, RoutingTable, OPTIMAL_TABLE_SIZE, PARALLELISM,
};
use routing::types::{GROUP_SIZE, QUORUM_SIZE};

enum ContactType {
    Far,
    Mid,
    Close,
}

struct Bucket {
    far_contact: NameType,
    mid_contact: NameType,
    close_contact: NameType,
}

fn flip_bit(bytes: &mut [u8; 64], bit: usize) {
    bytes[bit / 8] ^= 0x80u8 >> (bit % 8);
}

impl Bucket {
    fn new(farthest_from_tables_own_name: NameType, index: usize) -> Bucket {
        Bucket {
            far_contact: Self::get_contact(&farthest_from_tables_own_name, index, ContactType::Far),
            mid_contact: Self::get_contact(&farthest_from_tables_own_name, index, ContactType::Mid),
            close_contact: Self::get_contact(
                &farthest_from_tables_own_name,
                index,
                ContactType::Close,
            ),
        }
    }

    fn get_contact(
        farthest_from_tables_own_name: &NameType,
        index: usize,
        contact_type: ContactType,
    ) -> NameType {
        let mut binary_name = farthest_from_tables_own_name.0;
        for i in 0..index {
            flip_bit(&mut binary_name, i);
        }
        let len = NAME_TYPE_LEN * 8;
        match contact_type {
            ContactType::Mid => flip_bit(&mut binary_name, len - 1),
            ContactType::Close => flip_bit(&mut binary_name, len - 2),
            ContactType::Far => {}
        };
        NameType::new(binary_name)
    }
}

fn random_bytes<const N: usize>() -> [u8; N] {
    let mut bytes = [0u8; N];
    for b in bytes.iter_mut() {
        *b = rand::random::<u8>();
    }
    bytes
}

fn random_name() -> NameType {
    NameType::new(random_bytes::<64>())
}

fn random_public_id() -> PublicId {
    PublicId::new(PublicEncryptKey(random_bytes::<32>()), PublicSignKey(random_bytes::<32>()))
}

fn create_random_node_info() -> NodeInfo {
    NodeInfo { public_id: random_public_id(), connections: Vec::new() }
}

struct TestEnvironment {
    table: RoutingTable,
    buckets: Vec<Bucket>,
    node_info: NodeInfo,
    initial_count: usize,
    added_names: Vec<NameType>,
}

impl TestEnvironment {
    fn new() -> TestEnvironment {
        let node_info = create_random_node_info();
        TestEnvironment {
            table: RoutingTable::new(&node_info.name()),
            buckets: initialise_buckets(&node_info.name()),
            node_info,
            initial_count: (rand::random::<usize>() % (GROUP_SIZE - 1)) + 1,
            added_names: Vec::new(),
        }
    }

    fn partially_fill_table(&mut self) {
        for i in 0..self.initial_count {
            self.node_info.public_id.set_name(self.buckets[i].mid_contact);
            self.added_names.push(self.node_info.name());
            assert!(self.table.add_node(self.node_info.clone()).0);
        }
        assert_eq!(self.initial_count, self.table.len());
        assert!(are_nodes_sorted(&self.table), "Nodes are not sorted");
    }

    fn complete_filling_table(&mut self) {
        for i in self.initial_count..OPTIMAL_TABLE_SIZE {
            self.node_info.public_id.set_name(self.buckets[i].mid_contact);
            self.added_names.push(self.node_info.name());
            assert!(self.table.add_node(self.node_info.clone()).0);
        }
        assert_eq!(OPTIMAL_TABLE_SIZE, self.table.len());
        assert!(are_nodes_sorted(&self.table), "Nodes are not sorted");
    }

    fn public_id(&self, name: &NameType) -> Option<PublicId> {
        assert!(are_nodes_sorted(&self.table), "Nodes are not sorted");
        (0..self.table.len())
            .map(|i| self.table.node_at(i))
            .find(|node_info| node_info.name() == *name)
            .map(|node| node.public_id)
    }
}

fn initialise_buckets(name: &NameType) -> Vec<Bucket> {
    let mut arr_res = [0u8; 64];
    for i in 0..64 {
        arr_res[i] = 255u8 ^ name.0[i];
    }
    let farthest_from_tables_own_name = NameType::new(arr_res);
    let mut buckets = Vec::new();
    for i in 0..100 {
        buckets.push(Bucket::new(farthest_from_tables_own_name, i));
        assert!(closer_to_target(&buckets[i].mid_contact, &buckets[i].far_contact, name));
        assert!(closer_to_target(&buckets[i].close_contact, &buckets[i].mid_contact, name));
        if i != 0 {
            assert!(closer_to_target(&buckets[i].far_contact, &buckets[i - 1].close_contact, name));
        }
    }
    buckets
}

fn create_random_routing_tables(num_of_tables: usize) -> Vec<RoutingTable> {
    (0..num_of_tables).map(|_| RoutingTable::new(&random_name())).collect()
}

fn are_nodes_sorted(routing_table: &RoutingTable) -> bool {
    let n = routing_table.len();
    (1..n).all(|i| {
        closer_to_target(
            &routing_table.node_at(i - 1).name(),
            &routing_table.node_at(i).name(),
            routing_table.our_name(),
        )
    })
}

fn sort_by_closeness(names: &mut Vec<NameType>, target: &NameType) {
    names.sort_by(|lhs, rhs| {
        if closer_to_target(lhs, rhs, target) {
            std::cmp::Ordering::Less
        } else {
            std::cmp::Ordering::Greater
        }
    });
}

#[test]
fn add_node() {
    let mut test = TestEnvironment::new();
    assert_eq!(test.table.len(), 0);

    // try with our name - should fail
    test.node_info.public_id.set_name(*test.table.our_name());
    let r = test.table.add_node(test.node_info.clone());
    assert_eq!((false, None), (r.0, r.1.map(|n| n.name())));
    assert_eq!(test.table.len(), 0);

    // add first contact
    test.node_info.public_id.set_name(test.buckets[0].far_contact);
    let r = test.table.add_node(test.node_info.clone());
    assert_eq!((true, None), (r.0, r.1.map(|n| n.name())));
    assert_eq!(test.table.len(), 1);

    // try with the same contact - should fail
    let r = test.table.add_node(test.node_info.clone());
    assert_eq!((false, None), (r.0, r.1.map(|n| n.name())));
    assert_eq!(test.table.len(), 1);

    let steps = [
        test.buckets[0].mid_contact,
        test.buckets[0].close_contact,
        test.buckets[1].far_contact,
        test.buckets[1].mid_contact,
        test.buckets[1].close_contact,
    ];
    for (k, name) in steps.iter().enumerate() {
        test.node_info.public_id.set_name(*name);
        let r = test.table.add_node(test.node_info.clone());
        assert_eq!((true, None), (r.0, r.1.map(|n| n.name())));
        assert_eq!(k + 2, test.table.len());
        let r = test.table.add_node(test.node_info.clone());
        assert_eq!((false, None), (r.0, r.1.map(|n| n.name())));
        assert_eq!(k + 2, test.table.len());
    }

    // Add remaining contacts
    for i in 2..(OPTIMAL_TABLE_SIZE - 4) {
        test.node_info.public_id.set_name(test.buckets[i].mid_contact);
        let r = test.table.add_node(test.node_info.clone());
        assert_eq!((true, None), (r.0, r.1.map(|n| n.name())));
        assert_eq!(i + 5, test.table.len());
        let r = test.table.add_node(test.node_info.clone());
        assert_eq!((false, None), (r.0, r.1.map(|n| n.name())));
        assert_eq!(i + 5, test.table.len());
    }

    // Check next 4 closer additions return 'buckets_[0].far_contact',
    // 'buckets_[0].mid_contact', 'buckets_[1].far_contact', and 'buckets_[1].mid_contact' as
    // dropped (in that order)
    let mut dropped: Vec<NameType> = Vec::new();
    for i in (OPTIMAL_TABLE_SIZE - 4)..OPTIMAL_TABLE_SIZE {
        test.node_info.public_id.set_name(test.buckets[i].mid_contact);
        let result_of_add = test.table.add_node(test.node_info.clone());
        assert!(result_of_add.0);
        dropped.push(result_of_add.1.expect("a contact is dropped").name());
        assert_eq!(OPTIMAL_TABLE_SIZE, test.table.len());
        let r = test.table.add_node(test.node_info.clone());
        assert_eq!((false, None), (r.0, r.1.map(|n| n.name())));
        assert_eq!(OPTIMAL_TABLE_SIZE, test.table.len());
    }
    assert!(test.buckets[0].far_contact == dropped[0]);
    assert!(test.buckets[0].mid_contact == dropped[1]);
    assert!(test.buckets[1].far_contact == dropped[2]);
    assert!(test.buckets[1].mid_contact == dropped[3]);

    // Try to add far contacts again (should fail)
    for far_contact in dropped {
        test.node_info.public_id.set_name(far_contact);
        let r = test.table.add_node(test.node_info.clone());
        assert_eq!((false, None), (r.0, r.1.map(|n| n.name())));
        assert_eq!(OPTIMAL_TABLE_SIZE, test.table.len());
    }

    // Add final close contact to push len() of table above OPTIMAL_TABLE_SIZE
    test.node_info.public_id.set_name(test.buckets[OPTIMAL_TABLE_SIZE].mid_contact);
    let r = test.table.add_node(test.node_info.clone());
    assert_eq!((true, None), (r.0, r.1.map(|n| n.name())));
    assert_eq!(OPTIMAL_TABLE_SIZE + 1, test.table.len());
    let r = test.table.add_node(test.node_info.clone());
    assert_eq!((false, None), (r.0, r.1.map(|n| n.name())));
    assert_eq!(OPTIMAL_TABLE_SIZE + 1, test.table.len());
}

#[test]
fn add_connection() {}

#[test]
fn want_to_add() {
    let mut test = TestEnvironment::new();

    // Try with our ID
    assert!(!test.table.want_to_add(test.table.our_name()));

    // Should return true for empty routing table
    assert!(test.table.want_to_add(&test.buckets[0].far_contact));

    // Add the first contact, and check it doesn't allow duplicates
    let mut new_node_0 = create_random_node_info();
    new_node_0.public_id.set_name(test.buckets[0].far_contact);
    assert!(test.table.add_node(new_node_0).0);
    assert!(!test.table.want_to_add(&test.buckets[0].far_contact));

    let names = [
        test.buckets[0].mid_contact,
        test.buckets[0].close_contact,
        test.buckets[1].far_contact,
        test.buckets[1].mid_contact,
        test.buckets[1].close_contact,
    ];
    for name in names.iter() {
        let mut new_node = create_random_node_info();
        new_node.public_id.set_name(*name);
        assert!(test.table.want_to_add(&new_node.name()));
        assert!(test.table.add_node(new_node).0);
        assert!(!test.table.want_to_add(name));
    }

    for i in 2..(OPTIMAL_TABLE_SIZE - 4) {
        let mut new_node = create_random_node_info();
        new_node.public_id.set_name(test.buckets[i].mid_contact);
        assert!(test.table.want_to_add(&new_node.name()));
        assert!(test.table.add_node(new_node).0);
        assert!(!test.table.want_to_add(&test.buckets[i].mid_contact));
    }

    assert_eq!(OPTIMAL_TABLE_SIZE, test.table.len());

    for i in (OPTIMAL_TABLE_SIZE - 4)..OPTIMAL_TABLE_SIZE {
        let mut new_node = create_random_node_info();
        new_node.public_id.set_name(test.buckets[i].mid_contact);
        assert!(test.table.want_to_add(&new_node.name()));
        assert!(test.table.add_node(new_node).0);
        assert!(!test.table.want_to_add(&test.buckets[i].mid_contact));
        assert_eq!(OPTIMAL_TABLE_SIZE, test.table.len());
    }

    // Check for contacts again which are now not in the table
    assert!(!test.table.want_to_add(&test.buckets[0].far_contact));
    assert!(!test.table.want_to_add(&test.buckets[0].mid_contact));
    assert!(!test.table.want_to_add(&test.buckets[1].far_contact));
    assert!(!test.table.want_to_add(&test.buckets[1].mid_contact));

    // Check final close contact which would push len() of table above OPTIMAL_TABLE_SIZE
    assert!(test.table.want_to_add(&test.buckets[OPTIMAL_TABLE_SIZE].mid_contact));
}

#[test]
fn drop_node() {
    let mut test = TestEnvironment::new();
    assert_eq!(test.table.len(), 0);

    // Fill the table
    test.partially_fill_table();
    test.complete_filling_table();

    // Try with invalid Address
    test.table.drop_node(&NameType::new([0u8; 64]));
    assert_eq!(OPTIMAL_TABLE_SIZE, test.table.len());

    // Try with our Name
    let drop_name = *test.table.our_name();
    test.table.drop_node(&drop_name);
    assert_eq!(OPTIMAL_TABLE_SIZE, test.table.len());

    // Try with Address of node not in table
    test.table.drop_node(&test.buckets[0].far_contact);
    assert_eq!(OPTIMAL_TABLE_SIZE, test.table.len());

    // Remove all nodes one at a time in random order
    let mut rng = rand::thread_rng();
    rng.shuffle(&mut test.added_names);
    let mut len = test.table.len();
    for name in test.added_names {
        len -= 1;
        test.table.drop_node(&name);
        assert_eq!(len, test.table.len());
    }
}

#[test]
fn drop_connection() {}

#[test]
fn target_nodes() {
    let mut test = TestEnvironment::new();

    // Check on empty table
    let mut target_nodes = test.table.target_nodes(&random_name());
    assert_eq!(target_nodes.len(), 0);

    // Partially fill the table with < GROUP_SIZE contacts
    test.partially_fill_table();

    // Check we get all contacts returned
    target_nodes = test.table.target_nodes(&random_name());
    assert_eq!(test.initial_count, target_nodes.len());

    for i in 0..test.initial_count {
        assert!(target_nodes.iter().any(|n| n.name() == test.buckets[i].mid_contact));
    }

    // Complete filling the table up to OPTIMAL_TABLE_SIZE contacts
    test.complete_filling_table();

    // Try with our ID (should return closest to us)
    let our_name = *test.table.our_name();
    target_nodes = test.table.target_nodes(&our_name);
    assert_eq!(GROUP_SIZE, target_nodes.len());

    for i in ((OPTIMAL_TABLE_SIZE - GROUP_SIZE)..OPTIMAL_TABLE_SIZE - 1).rev() {
        assert!(target_nodes.iter().any(|n| n.name() == test.buckets[i].mid_contact));
    }

    // Try with nodes far from us, first time *not* in table and second time *in* table (should
    // return 'PARALLELISM' contacts closest to target first time and the single actual target
    // the second time)
    for count in 0..2 {
        for i in 0..(OPTIMAL_TABLE_SIZE - GROUP_SIZE) {
            let (target, expected_len) = if count == 0 {
                (test.buckets[i].far_contact, PARALLELISM)
            } else {
                (test.buckets[i].mid_contact, 1)
            };
            target_nodes = test.table.target_nodes(&target);
            assert_eq!(expected_len, target_nodes.len());
            for node in target_nodes.iter() {
                assert!(test.added_names.iter().any(|n| *n == node.name()));
            }
        }
    }

    // Try with nodes close to us, first time *not* in table and second time *in* table (should
    // return GROUP_SIZE closest to target)
    for count in 0..2 {
        for i in (OPTIMAL_TABLE_SIZE - GROUP_SIZE)..OPTIMAL_TABLE_SIZE {
            let target = if count == 0 {
                test.buckets[i].close_contact
            } else {
                test.buckets[i].mid_contact
            };
            target_nodes = test.table.target_nodes(&target);
            assert_eq!(GROUP_SIZE, target_nodes.len());
            for node in target_nodes.iter() {
                assert!(test.added_names.iter().any(|n| *n == node.name()));
            }
        }
    }
}

#[test]
fn our_close_group_test() {
    let mut test = TestEnvironment::new();
    assert!(test.table.our_close_group().is_empty());

    test.partially_fill_table();
    assert_eq!(test.initial_count, test.table.our_close_group().len());

    for i in 0..test.initial_count {
        assert!(
            test.table
                .our_close_group()
                .iter()
                .filter(|node| node.name() == test.buckets[i].mid_contact)
                .count()
                > 0
        );
    }

    test.complete_filling_table();
    assert_eq!(GROUP_SIZE, test.table.our_close_group().len());

    for close_node in &test.table.our_close_group() {
        assert_eq!(1, test.added_names.iter().filter(|n| **n == close_node.name()).count());
    }
}

#[test]
fn our_close_group_and_is_close() {
    // independent double verification of our_close_group()
    // this test verifies that the close group is returned sorted
    let name = random_public_id().name();
    let mut routing_table = RoutingTable::new(&name);

    let mut count: usize = 0;
    loop {
        let _ = routing_table.add_node(NodeInfo::new(random_public_id(), vec![]));
        count += 1;
        if routing_table.len() >= OPTIMAL_TABLE_SIZE {
            break;
        }
        if count >= 2 * OPTIMAL_TABLE_SIZE {
            panic!("Routing table does not fill up.");
        }
    }
    let our_close_group: Vec<NodeInfo> = routing_table.our_close_group();
    assert_eq!(our_close_group.len(), GROUP_SIZE);
    let mut closer_name: NameType = name;
    for close_node in &our_close_group {
        assert!(closer_to_target(&closer_name, &close_node.name(), &name));
        assert!(routing_table.is_close(&close_node.name()));
        closer_name = close_node.name();
    }
    for i in 0..routing_table.len() {
        let node = routing_table.node_at(i);
        if our_close_group.iter().filter(|close_node| close_node.name() == node.name()).count() > 0
        {
            assert!(routing_table.is_close(&node.name()));
        } else {
            assert!(!routing_table.is_close(&node.name()));
        }
    }
}

#[test]
fn add_check_close_group_test() {
    let num_of_tables = 50usize;
    let mut tables = create_random_routing_tables(num_of_tables);
    let mut addresses: Vec<NameType> = Vec::with_capacity(num_of_tables);

    for i in 0..num_of_tables {
        addresses.push(*tables[i].our_name());
        for j in 0..num_of_tables {
            let mut node_info = create_random_node_info();
            node_info.public_id.set_name(*tables[j].our_name());
            let _ = tables[i].add_node(node_info);
        }
    }
    for it in tables.iter() {
        sort_by_closeness(&mut addresses, it.our_name());
        let mut groups = it.our_close_group();
        assert_eq!(groups.len(), GROUP_SIZE);

        if groups.len() > 1 {
            let mut new_end = 1usize;
            for i in 1..groups.len() {
                if groups[new_end - 1].name() != groups[i].name() {
                    if new_end != i {
                        groups[new_end] = groups[i].clone();
                    }
                    new_end += 1;
                }
            }
            assert_eq!(new_end, groups.len());
        }

        assert_eq!(groups.len(), GROUP_SIZE);

        for i in 0..GROUP_SIZE {
            assert!(groups[i].name() == addresses[i + 1]);
        }
    }
}

#[test]
fn churn_test() {
    let network_len = 200usize;
    let nodes_to_remove = 20usize;

    let mut tables = create_random_routing_tables(network_len);
    let mut addresses: Vec<NameType> = Vec::with_capacity(network_len);

    for i in 0..tables.len() {
        addresses.push(*tables[i].our_name());
        for j in 0..tables.len() {
            let mut node_info = create_random_node_info();
            node_info.public_id.set_name(*tables[j].our_name());
            let _ = tables[i].add_node(node_info);
        }
    }

    // now remove nodes
    let mut drop_vec: Vec<NameType> = Vec::with_capacity(nodes_to_remove);
    for i in 0..nodes_to_remove {
        drop_vec.push(addresses[i]);
    }

    tables.truncate(nodes_to_remove);

    for i in 0..tables.len() {
        for j in 0..drop_vec.len() {
            tables[i].drop_node(&drop_vec[j]);
        }
    }
    // remove IDs too
    addresses.truncate(nodes_to_remove);

    for i in 0..tables.len() {
        sort_by_closeness(&mut addresses, tables[i].our_name());
        let group = tables[i].our_close_group();
        assert_eq!(group.len(), std::cmp::min(GROUP_SIZE, tables[i].len()));
    }
}

#[test]
fn target_nodes_group_test() {
    let network_len = 100usize;

    let mut tables = create_random_routing_tables(network_len);
    let mut addresses: Vec<NameType> = Vec::with_capacity(network_len);

    for i in 0..tables.len() {
        addresses.push(*tables[i].our_name());
        for j in 0..tables.len() {
            let mut node_info = create_random_node_info();
            node_info.public_id.set_name(*tables[j].our_name());
            let _ = tables[i].add_node(node_info);
        }
    }

    for i in 0..tables.len() {
        sort_by_closeness(&mut addresses, tables[i].our_name());
        // if target is in close group return the whole close group excluding target
        for j in 1..(GROUP_SIZE - QUORUM_SIZE) {
            let target_close_group = tables[i].target_nodes(&addresses[j]);
            assert_eq!(GROUP_SIZE, target_close_group.len());
            // should contain our close group
            for k in 0..target_close_group.len() {
                assert_eq!(target_close_group[k].name(), addresses[k + 1]);
            }
        }
    }
}

#[test]
fn trivial_functions_test() {
    let mut test = TestEnvironment::new();
    assert!(test.public_id(&test.buckets[0].mid_contact).is_none());
    assert_eq!(0, test.table.len());

    // Check on partially filled the table
    test.partially_fill_table();
    let test_node = create_random_node_info();
    test.node_info = test_node.clone();
    assert!(test.table.add_node(test.node_info.clone()).0);

    match test.public_id(&test.node_info.name()) {
        Some(_) => {}
        None => panic!("PublicId None"),
    }
    match test.public_id(&test.buckets[test.buckets.len() - 1].far_contact) {
        Some(_) => panic!("PublicId Exits"),
        None => {}
    }
    assert_eq!(test.initial_count + 1, test.table.len());

    // Check on fully filled the table
    test.table.drop_node(&test_node.name());
    test.complete_filling_table();
    test.table.drop_node(&test.buckets[0].mid_contact);
    test.node_info = test_node.clone();
    assert!(test.table.add_node(test.node_info.clone()).0);

    match test.public_id(&test.node_info.name()) {
        Some(_) => {}
        None => panic!("PublicId None"),
    }
    match test.public_id(&test.buckets[test.buckets.len() - 1].far_contact) {
        Some(_) => panic!("PublicId Exits"),
        None => {}
    }
    assert_eq!(OPTIMAL_TABLE_SIZE, test.table.len());
}

#[test]
fn bucket_index() {
    // Set our name for routing table to max possible value (in binary, all `1`s)
    let our_name = NameType::new([255u8; NAME_TYPE_LEN]);
    let routing_table = RoutingTable::new(&our_name);

    for index in 0..NAME_TYPE_LEN {
        let mut array = [255u8; NAME_TYPE_LEN];
        for modified_element in 0..255u8 {
            array[index] = modified_element;
            let target_name = NameType::new(array);
            let expected_bucket_index = (index * 8)
                + match modified_element {
                    0..=127 => 0,
                    128..=191 => 1,
                    192..=223 => 2,
                    224..=239 => 3,
                    240..=247 => 4,
                    248..=251 => 5,
                    252 | 253 => 6,
                    254 => 7,
                    _ => unreachable!(),
                };
            assert_eq!(expected_bucket_index, routing_table.bucket_index(&target_name));
        }
    }

    // Check the bucket index of our own name is 512
    assert_eq!(NAME_TYPE_LEN * 8, routing_table.bucket_index(&our_name));
}

#[test]
fn add_connection_to_known_contact() {
    let mut test = TestEnvironment::new();
    test.node_info.public_id.set_name(test.buckets[3].mid_contact);
    assert!(test.table.add_node(test.node_info.clone()).0);
    let name = test.buckets[3].mid_contact;
    assert!(test.table.add_connection(&name, Connection(7)));
    assert!(!test.table.add_connection(&name, Connection(7)));
    assert!(test.table.add_connection(&name, Connection(8)));
    assert!(!test.table.add_connection(&test.buckets[4].mid_contact, Connection(9)));
    assert_eq!(test.table.node_at(0).connections, vec![Connection(7), Connection(8)]);
}

#[test]
fn drop_connection_removes_contact_when_last_one_goes() {
    let mut test = TestEnvironment::new();
    test.node_info.public_id.set_name(test.buckets[3].mid_contact);
    test.node_info.connections = vec![Connection(1), Connection(2)];
    assert!(test.table.add_node(test.node_info.clone()).0);
    assert_eq!(test.table.drop_connection(&Connection(5)), None);
    assert_eq!(test.table.drop_connection(&Connection(1)), None);
    assert_eq!(test.table.len(), 1);
    assert_eq!(test.table.node_at(0).connections, vec![Connection(2)]);
    assert_eq!(test.table.drop_connection(&Connection(2)), Some(test.buckets[3].mid_contact));
    assert_eq!(test.table.len(), 0);
}
