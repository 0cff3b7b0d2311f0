use cef_bridge::values::{
    BinaryValue, DictionaryValue, ListValue, SeekFrom, Value, ValueStore, ValueType,
};

#[test]
fn fresh_value_is_null() {
    let store = ValueStore::new();
    let v = Value::new();
    assert_eq!(v.get_type(&store), ValueType::Null);
    assert!(v.is_valid(&store));
    assert!(!v.is_owned(&store));
    assert!(!v.is_read_only(&store));
}

#[test]
fn wrong_typed_reads_yield_zero_values() {
    let store = ValueStore::new();
    let mut v = Value::new();
    assert!(!v.to_bool());
    assert_eq!(v.to_int(), 0);
    assert_eq!(v.to_double(), 0);
    assert_eq!(v.to_string(), String::new());
    assert!(v.set_string(&store, "hello"));
    assert!(!v.to_bool());
    assert_eq!(v.to_int(), 0);
    assert_eq!(v.to_double(), 0);
    assert_eq!(v.to_string(), String::from("hello"));
    assert!(v.set_int(&store, 9));
    assert_eq!(v.to_int(), 9);
    assert_eq!(v.to_string(), String::new());
}

#[test]
fn invalid_value_reads_yield_zero_values() {
    let mut store = ValueStore::new();
    let d = DictionaryValue::new(&mut store);
    let l = ListValue::new(&mut store);
    let mut v = Value::new();
    assert!(v.set_list(&store, &l));
    // Transferring the list's storage into the dictionary leaves the bound
    // value with nothing behind it.
    assert!(d.insert_list(&mut store, "items", l));
    assert!(!v.is_valid(&store));
    assert_eq!(v.get_type(&store), ValueType::Invalid);
    assert!(!v.to_bool());
    assert_eq!(v.to_int(), 0);
    assert_eq!(v.to_string(), String::new());
    assert!(v.try_to_list(&store).is_none());
    // The value can be re-used by rebinding it: a stale payload is not
    // read-only data.
    assert!(!v.is_read_only(&store));
    assert!(v.set_bool(&store, true));
    assert!(v.is_valid(&store));
    assert!(v.to_bool());
}

#[test]
fn missing_or_wrong_typed_entries_read_as_defaults() {
    let mut store = ValueStore::new();
    let d = DictionaryValue::new(&mut store);
    assert!(d.insert_string(&mut store, "s", "text"));
    assert_eq!(d.get_int(&store, "s"), 0);
    assert_eq!(d.get_int(&store, "missing"), 0);
    assert!(!d.get_bool(&store, "s"));
    assert_eq!(d.get_string(&store, "missing"), String::new());
    assert_eq!(d.get_type(&store, "missing"), ValueType::Invalid);
    assert!(d.try_get_list(&store, "s").is_none());
}

#[test]
fn unowned_insert_transfers_and_invalidates_source() {
    let mut store = ValueStore::new();
    let d = DictionaryValue::new(&mut store);
    let l = ListValue::new(&mut store);
    assert!(!l.is_owned(&store));
    let mut probe = Value::new();
    assert!(probe.set_list(&store, &l));
    assert!(d.insert_list(&mut store, "items", l));
    // The other handle to the moved storage went stale: no further direct
    // mutation through it.
    let stale = probe.try_to_list(&store);
    assert!(stale.is_none());
    // The data itself lives on, owned by the dictionary.
    let owned = d.try_get_list(&store, "items").expect("entry should be a list");
    assert!(owned.is_valid(&store));
    assert!(owned.is_owned(&store));
}

#[test]
fn owned_insert_copies_and_source_stays_mutable() {
    let mut store = ValueStore::new();
    let d1 = DictionaryValue::new(&mut store);
    let l = ListValue::new(&mut store);
    assert!(d1.insert_list(&mut store, "a", l));
    let owned = d1.try_get_list(&store, "a").expect("entry should be a list");
    assert!(owned.is_owned(&store));
    let d2 = DictionaryValue::new(&mut store);
    assert!(d2.insert_list(&mut store, "b", owned));
    // Deep copy occurred: the source entry is still there, valid, and
    // independently mutable.
    let source = d1.try_get_list(&store, "a").expect("source should remain");
    assert!(source.is_valid(&store));
    assert!(source.set_len(&mut store, 2));
    assert_eq!(source.len(&store), 2);
    let copy = d2.try_get_list(&store, "b").expect("copy should be there");
    assert_eq!(copy.len(&store), 0);
}

#[test]
fn stale_list_operations_degrade() {
    let mut store = ValueStore::new();
    let d = DictionaryValue::new(&mut store);
    let l = ListValue::new(&mut store);
    let mut probe = Value::new();
    assert!(probe.set_list(&store, &l));
    assert!(d.insert_list(&mut store, "x", l));
    // The handle recovered before the move reports the loss on every path,
    // and stays re-usable: a stale payload is not read-only data.
    assert!(probe.try_to_list(&store).is_none());
    assert_eq!(probe.get_type(&store), ValueType::Invalid);
    assert!(!probe.is_valid(&store));
    assert!(!probe.is_owned(&store));
    assert!(!probe.is_read_only(&store));
    assert!(probe.set_null(&store));
    assert_eq!(probe.get_type(&store), ValueType::Null);
}

#[test]
fn set_len_grows_with_nulls_and_keeps_prefix() {
    let mut store = ValueStore::new();
    let l = ListValue::new(&mut store);
    assert!(l.set_len(&mut store, 2));
    assert!(l.set_int(&mut store, 0, 10));
    assert!(l.set_int(&mut store, 1, 20));
    assert!(l.set_len(&mut store, 4));
    assert_eq!(l.len(&store), 4);
    assert_eq!(l.get_int(&store, 0), 10);
    assert_eq!(l.get_int(&store, 1), 20);
    assert_eq!(l.get_type(&store, 2), ValueType::Null);
    assert_eq!(l.get_type(&store, 3), ValueType::Null);
}

#[test]
fn set_len_shrink_discards_for_good() {
    let mut store = ValueStore::new();
    let l = ListValue::new(&mut store);
    assert!(l.set_len(&mut store, 3));
    assert!(l.set_int(&mut store, 0, 1));
    assert!(l.set_int(&mut store, 1, 2));
    assert!(l.set_int(&mut store, 2, 3));
    assert!(l.set_len(&mut store, 1));
    assert_eq!(l.len(&store), 1);
    assert_eq!(l.get_int(&store, 0), 1);
    // Growing back does not bring the discarded items back.
    assert!(l.set_len(&mut store, 3));
    assert_eq!(l.get_type(&store, 1), ValueType::Null);
    assert_eq!(l.get_type(&store, 2), ValueType::Null);
    assert_eq!(l.get_int(&store, 1), 0);
}

#[test]
fn is_same_holds_only_for_aliases() {
    let mut store = ValueStore::new();
    let d = DictionaryValue::new(&mut store);
    let l = ListValue::new(&mut store);
    assert!(d.insert_list(&mut store, "x", l));
    let h1 = d.try_get_list(&store, "x").expect("list entry");
    let h2 = d.try_get_list(&store, "x").expect("list entry");
    assert!(h1.is_same(&h2));
    // Aliases see each other's mutations.
    assert!(h1.set_len(&mut store, 2));
    assert_eq!(h2.len(&store), 2);
    // Independently built equal content: eq without is_same.
    let l1 = ListValue::new(&mut store);
    let l2 = ListValue::new(&mut store);
    assert!(l1.set_len(&mut store, 1));
    assert!(l1.set_int(&mut store, 0, 7));
    assert!(l2.set_len(&mut store, 1));
    assert!(l2.set_int(&mut store, 0, 7));
    assert!(l1.eq(&store, &l2));
    assert!(!l1.is_same(&l2));
}

#[test]
fn value_is_same_tracks_shared_storage() {
    let mut store = ValueStore::new();
    let d = DictionaryValue::new(&mut store);
    let l = ListValue::new(&mut store);
    assert!(d.insert_list(&mut store, "x", l));
    let h = d.try_get_list(&store, "x").expect("list entry");
    let mut v1 = Value::new();
    let mut v2 = Value::new();
    assert!(v1.set_list(&store, &h));
    assert!(v2.set_list(&store, &h));
    assert!(v1.is_same(&v2));
    // Two scalar values with equal content are each their own copy.
    let mut s1 = Value::new();
    let mut s2 = Value::new();
    assert!(s1.set_int(&store, 5));
    assert!(s2.set_int(&store, 5));
    assert!(!s1.is_same(&s2));
    assert!(s1.eq(&store, &s2));
}

#[test]
fn dictionary_round_trip_with_sub_list() {
    let mut store = ValueStore::new();
    let d = DictionaryValue::new(&mut store);
    let l = ListValue::new(&mut store);
    assert!(d.insert_list(&mut store, "items", l));
    let items = d.try_get_list(&store, "items").expect("items should be a list");
    assert!(items.set_len(&mut store, 3));
    assert!(items.set_int(&mut store, 0, 1));
    assert!(items.set_int(&mut store, 1, 2));
    assert!(items.set_int(&mut store, 2, 3));
    assert_eq!(d.get_type(&store, "items"), ValueType::List);
    let back = d.try_get_list(&store, "items").expect("items should be a list");
    assert_eq!(back.len(&store), 3);
    assert_eq!(back.get_int(&store, 0), 1);
    assert_eq!(back.get_int(&store, 1), 2);
    assert_eq!(back.get_int(&store, 2), 3);
}

#[test]
fn dictionary_keys_and_membership() {
    let mut store = ValueStore::new();
    let d = DictionaryValue::new(&mut store);
    assert!(d.insert_int(&mut store, "a", 1));
    assert!(d.insert_int(&mut store, "b", 2));
    assert!(d.insert_int(&mut store, "a", 3));
    assert_eq!(d.len(&store), 2);
    assert_eq!(d.get_int(&store, "a"), 3);
    assert!(d.contains_key(&store, "b"));
    assert!(!d.contains_key(&store, "c"));
    let keys = d.keys(&store);
    assert_eq!(keys, vec![String::from("a"), String::from("b")]);
    assert!(d.remove(&mut store, "a"));
    assert!(!d.remove(&mut store, "a"));
    assert!(!d.contains_key(&store, "a"));
    assert!(d.clear(&mut store));
    assert_eq!(d.len(&store), 0);
}

#[test]
fn doubles_travel_as_bit_patterns() {
    let mut store = ValueStore::new();
    let d = DictionaryValue::new(&mut store);
    assert!(d.insert_double(&mut store, "pi", (3.25f64).to_bits()));
    assert_eq!(f64::from_bits(d.get_double(&store, "pi")), 3.25);
    let mut v = Value::new();
    assert!(v.set_double(&store, (-0.5f64).to_bits()));
    assert_eq!(f64::from_bits(v.to_double()), -0.5);
    assert_eq!(v.get_type(&store), ValueType::Double);
}

#[test]
fn binary_read_advances_cursor() {
    let mut store = ValueStore::new();
    let mut b = BinaryValue::new(&mut store, &[1, 2, 3, 4, 5]);
    assert_eq!(b.len(&store), 5);
    let mut buf = vec![0u8; 2];
    assert_eq!(b.read(&store, &mut buf), Some(2));
    assert_eq!(buf, vec![1, 2]);
    assert_eq!(b.read(&store, &mut buf), Some(2));
    assert_eq!(buf, vec![3, 4]);
    assert_eq!(b.read(&store, &mut buf), Some(1));
    assert_eq!(buf, vec![5, 4]);
    assert_eq!(b.read(&store, &mut buf), Some(0));
}

#[test]
fn binary_seek_clamps_end_relative_underflow() {
    let mut store = ValueStore::new();
    let mut b = BinaryValue::new(&mut store, &[10, 20, 30]);
    assert_eq!(b.seek(&store, SeekFrom::End(-1)), Ok(2));
    let mut buf = vec![0u8; 1];
    assert_eq!(b.read(&store, &mut buf), Some(1));
    assert_eq!(buf, vec![30]);
    assert_eq!(b.seek(&store, SeekFrom::End(-100)), Ok(0));
    assert_eq!(b.read(&store, &mut buf), Some(1));
    assert_eq!(buf, vec![10]);
    assert_eq!(b.seek(&store, SeekFrom::Start(1)), Ok(1));
    assert_eq!(b.seek(&store, SeekFrom::Current(1)), Ok(2));
    assert_eq!(b.seek(&store, SeekFrom::Current(-100)), Err(()));
    assert_eq!(b.seek(&store, SeekFrom::Current(0)), Ok(2));
}

#[test]
fn binary_data_in_dictionary() {
    let mut store = ValueStore::new();
    let d = DictionaryValue::new(&mut store);
    let b = BinaryValue::new(&mut store, &[7, 8, 9]);
    assert!(d.insert_binary(&mut store, "blob", b));
    assert_eq!(d.get_type(&store, "blob"), ValueType::Binary);
    let mut back = d.try_get_binary(&store, "blob").expect("blob should be binary");
    assert!(back.is_owned(&store));
    let mut buf = vec![0u8; 3];
    assert_eq!(back.read(&store, &mut buf), Some(3));
    assert_eq!(buf, vec![7, 8, 9]);
}

#[test]
fn binary_eq_compares_contents() {
    let mut store = ValueStore::new();
    let b1 = BinaryValue::new(&mut store, &[1, 2]);
    let b2 = BinaryValue::new(&mut store, &[1, 2]);
    let b3 = BinaryValue::new(&mut store, &[1, 3]);
    assert!(b1.eq(&store, &b2));
    assert!(!b1.eq(&store, &b3));
    assert!(!b1.is_same(&b2));
}

#[test]
fn read_only_mutations_fail_without_altering_state() {
    let mut store = ValueStore::new();
    let d = DictionaryValue::new(&mut store);
    assert!(d.insert_int(&mut store, "a", 1));
    assert!(d.make_read_only(&mut store));
    assert!(d.is_read_only(&store));
    assert!(!d.insert_int(&mut store, "b", 2));
    assert!(!d.remove(&mut store, "a"));
    assert!(!d.clear(&mut store));
    assert_eq!(d.len(&store), 1);
    assert_eq!(d.get_int(&store, "a"), 1);
}

#[test]
fn read_only_container_protects_children() {
    let mut store = ValueStore::new();
    let d = DictionaryValue::new(&mut store);
    let l = ListValue::new(&mut store);
    assert!(d.insert_list(&mut store, "l", l));
    let child = d.try_get_list(&store, "l").expect("child list");
    // Writable while the enclosing dictionary is: not read-only, and the
    // mutation goes through.
    assert!(!child.is_read_only(&store));
    assert!(child.set_len(&mut store, 1));
    assert!(d.make_read_only(&mut store));
    // The child inherits the enclosing container's read-only state.
    let child = d.try_get_list(&store, "l").expect("child list");
    assert!(child.is_read_only(&store));
    assert!(!child.set_len(&mut store, 3));
    assert_eq!(child.len(&store), 1);
}

#[test]
fn list_item_operations() {
    let mut store = ValueStore::new();
    let l = ListValue::new(&mut store);
    assert!(l.set_len(&mut store, 3));
    assert!(l.set_string(&mut store, 1, "mid"));
    assert!(l.set_bool(&mut store, 2, true));
    assert_eq!(l.get_string(&store, 1), String::from("mid"));
    assert!(l.get_bool(&store, 2));
    assert!(!l.set_int(&mut store, 3, 4));
    assert!(l.remove(&mut store, 0));
    assert_eq!(l.len(&store), 2);
    assert_eq!(l.get_string(&store, 0), String::from("mid"));
    assert!(l.clear(&mut store));
    assert_eq!(l.len(&store), 0);
}

#[test]
fn value_moves_into_container_like_typed_inserts() {
    let mut store = ValueStore::new();
    let d = DictionaryValue::new(&mut store);
    let mut n = Value::new();
    assert!(n.set_int(&store, 42));
    assert!(d.insert(&mut store, "n", n));
    assert_eq!(d.get_int(&store, "n"), 42);
    let l = ListValue::new(&mut store);
    let mut v = Value::new();
    assert!(v.set_list(&store, &l));
    let mut alias = Value::new();
    assert!(alias.set_list(&store, &l));
    drop(l);
    assert!(d.insert(&mut store, "l", v));
    assert_eq!(d.get_type(&store, "l"), ValueType::List);
    // The unowned list moved in: the other reference to it went stale.
    assert!(alias.try_to_list(&store).is_none());
}

#[test]
fn list_reads_hand_out_shared_values() {
    let mut store = ValueStore::new();
    let outer = ListValue::new(&mut store);
    assert!(outer.set_len(&mut store, 2));
    assert!(outer.set_int(&mut store, 0, 5));
    let inner = DictionaryValue::new(&mut store);
    assert!(inner.insert_bool(&mut store, "flag", true));
    assert!(outer.set_dictionary(&mut store, 1, inner));
    let scalar = outer.try_get_value(&store, 0).expect("scalar item");
    assert_eq!(scalar.to_int(), 5);
    let shared = outer.try_get_value(&store, 1).expect("complex item");
    assert_eq!(shared.get_type(&store), ValueType::Dictionary);
    let shared_dict = shared.try_to_dictionary(&store).expect("dictionary payload");
    assert!(shared_dict.insert_bool(&mut store, "more", true));
    // The mutation through the shared value is visible through the list.
    let again = outer.try_get_dictionary(&store, 1).expect("dictionary item");
    assert_eq!(again.len(&store), 2);
}

#[test]
fn copies_are_equal_but_not_same() {
    let mut store = ValueStore::new();
    let d = DictionaryValue::new(&mut store);
    assert!(d.insert_int(&mut store, "x", 1));
    assert!(d.insert_string(&mut store, "y", "two"));
    let c = d.copy(&mut store).expect("copy of a valid dictionary");
    assert!(d.eq(&store, &c));
    assert!(!d.is_same(&c));
    assert!(c.insert_int(&mut store, "x", 99));
    assert_eq!(d.get_int(&store, "x"), 1);
    assert_eq!(c.get_int(&store, "x"), 99);
    assert!(!d.eq(&store, &c));
}

#[test]
fn dictionary_eq_ignores_entry_order() {
    let mut store = ValueStore::new();
    let d1 = DictionaryValue::new(&mut store);
    assert!(d1.insert_int(&mut store, "a", 1));
    assert!(d1.insert_int(&mut store, "b", 2));
    let d2 = DictionaryValue::new(&mut store);
    assert!(d2.insert_int(&mut store, "b", 2));
    assert!(d2.insert_int(&mut store, "a", 1));
    assert!(d1.eq(&store, &d2));
    assert!(d2.eq(&store, &d1));
    assert!(d2.insert_int(&mut store, "c", 3));
    assert!(!d1.eq(&store, &d2));
}

#[test]
fn container_refuses_a_tree_it_lives_in() {
    let mut store = ValueStore::new();
    let d = DictionaryValue::new(&mut store);
    let l = ListValue::new(&mut store);
    assert!(d.insert_list(&mut store, "l", l));
    let owned_list = d.try_get_list(&store, "l").expect("owned list");
    assert!(owned_list.set_len(&mut store, 1));
    // Moving the unowned dictionary into a list inside itself is refused.
    let inner = d.try_get_list(&store, "l").expect("owned list");
    assert!(!inner.set_dictionary(&mut store, 0, d));
}

#[test]
fn read_only_list_rejects_resizing() {
    let mut store = ValueStore::new();
    let l = ListValue::new(&mut store);
    assert!(l.set_len(&mut store, 1));
    assert!(l.make_read_only(&mut store));
    assert!(l.is_read_only(&store));
    assert!(!l.set_len(&mut store, 5));
    assert!(!l.set_int(&mut store, 0, 1));
    assert_eq!(l.len(&store), 1);
}

#[test]
fn value_binds_binary_without_taking_ownership() {
    let mut store = ValueStore::new();
    let b = BinaryValue::new(&mut store, &[1, 2, 3]);
    let mut v = Value::new();
    assert!(v.set_binary(&store, &b));
    assert_eq!(v.get_type(&store), ValueType::Binary);
    // Binding does not transfer ownership: the handle stays usable.
    assert!(b.is_valid(&store));
    assert!(!b.is_owned(&store));
    let mut again = v.try_to_binary(&store).expect("binary payload");
    let mut buf = vec![0u8; 3];
    assert_eq!(again.read(&store, &mut buf), Some(3));
    assert_eq!(buf, vec![1, 2, 3]);
    assert!(again.is_same(&b));
}

#[test]
fn binary_copy_is_independent() {
    let mut store = ValueStore::new();
    let b = BinaryValue::new(&mut store, &[9, 9]);
    let c = b.copy(&mut store).expect("copy of a valid binary");
    assert!(b.eq(&store, &c));
    assert!(!b.is_same(&c));
    assert_eq!(c.len(&store), 2);
}

#[test]
fn list_copy_is_independent() {
    let mut store = ValueStore::new();
    let l = ListValue::new(&mut store);
    assert!(l.set_len(&mut store, 2));
    assert!(l.set_int(&mut store, 0, 4));
    let c = l.copy(&mut store).expect("copy of a valid list");
    assert!(l.eq(&store, &c));
    assert!(!l.is_same(&c));
    assert!(c.set_int(&mut store, 0, 5));
    assert_eq!(l.get_int(&store, 0), 4);
    assert_eq!(c.get_int(&store, 0), 5);
}

#[test]
fn read_only_data_refuses_value_rebinding() {
    let mut store = ValueStore::new();
    let l = ListValue::new(&mut store);
    let mut v = Value::new();
    assert!(v.set_list(&store, &l));
    assert!(l.make_read_only(&mut store));
    // The value holds read-only data: every mutation fails without altering
    // state.
    assert!(v.is_read_only(&store));
    assert!(!v.set_null(&store));
    assert!(!v.set_int(&store, 3));
    assert!(!v.set_string(&store, "no"));
    let b = BinaryValue::new(&mut store, &[1]);
    assert!(!v.set_binary(&store, &b));
    assert_eq!(v.get_type(&store), ValueType::List);
    assert!(v.is_read_only(&store));
}

#[test]
fn value_copy_copies_the_data() {
    let mut store = ValueStore::new();
    let mut scalar = Value::new();
    assert!(scalar.set_int(&store, 11));
    let scalar_copy = scalar.copy(&mut store).expect("scalars always copy");
    assert_eq!(scalar_copy.to_int(), 11);
    assert!(!scalar.is_same(&scalar_copy));
    assert!(scalar.eq(&store, &scalar_copy));
    // A complex payload is deep-copied into independent storage.
    let l = ListValue::new(&mut store);
    assert!(l.set_len(&mut store, 1));
    assert!(l.set_int(&mut store, 0, 4));
    let mut v = Value::new();
    assert!(v.set_list(&store, &l));
    let deep = v.copy(&mut store).expect("copy of a live list payload");
    assert!(v.eq(&store, &deep));
    assert!(!v.is_same(&deep));
    let copy_list = deep.try_to_list(&store).expect("list payload");
    assert!(!copy_list.is_owned(&store));
    assert!(copy_list.set_int(&mut store, 0, 9));
    assert_eq!(l.get_int(&store, 0), 4);
    // A stale payload has nothing to copy.
    let d = DictionaryValue::new(&mut store);
    assert!(d.insert_list(&mut store, "x", l));
    assert!(v.copy(&mut store).is_none());
}
