use linked_map_views::iter_nodes::IterNodes;
use linked_map_views::map::LinkedHashMap;
use linked_map_views::view::{
    LinkedHashMapEntryAndRes, LinkedHashMapExceptView, LinkedHashMapIterExt,
};

fn abc_map() -> LinkedHashMap<u64> {
    let mut m: LinkedHashMap<u64> = LinkedHashMap::new();
    let (a, b, c) = (1u64, 2u64, 3u64);
    m.insert(a, 100);
    m.insert(b, 200);
    m.insert(c, 300);
    m
}

#[test]
fn cursor_forward_yields_insertion_order() {
    let m = abc_map();
    let mut it = m.iter_nodes();
    assert_eq!(it.size_hint(), (3, Some(3)));
    let mut handles = Vec::new();
    while let Some(h) = it.next(&m) {
        handles.push(h);
    }
    assert_eq!(handles, vec![0, 1, 2]);
    assert_eq!(it.size_hint(), (0, Some(0)));
    assert_eq!(it.next(&m), None);
}

#[test]
fn cursor_backward_yields_reverse_order() {
    let m = abc_map();
    let mut it = m.iter_nodes();
    let mut handles = Vec::new();
    while let Some(h) = it.next_back(&m) {
        handles.push(h);
    }
    assert_eq!(handles, vec![2, 1, 0]);
    assert_eq!(it.next_back(&m), None);
}

#[test]
fn cursor_partial_consumption_partitions_handles() {
    let m = abc_map();
    let mut it = m.iter_nodes();
    let front = it.next(&m);
    let back = it.next_back(&m);
    assert_eq!(front, Some(0));
    assert_eq!(back, Some(2));
    assert_eq!(it.size_hint(), (1, Some(1)));
    let remaining = it.iter(&m);
    assert_eq!(remaining.len(), 1);
    assert_eq!(remaining[0].0, 2);
    assert_eq!(*remaining[0].1, 200);
    let mut seen = vec![front.unwrap(), back.unwrap(), 1];
    seen.sort();
    assert_eq!(seen, vec![0, 1, 2]);
}

#[test]
fn cursor_iter_lists_entries_in_order() {
    let m = abc_map();
    let it = m.iter_nodes();
    let entries = it.iter(&m);
    let keys: Vec<u64> = entries.iter().map(|e| e.0).collect();
    let vals: Vec<u64> = entries.iter().map(|e| *e.1).collect();
    assert_eq!(keys, vec![1, 2, 3]);
    assert_eq!(vals, vec![100, 200, 300]);
}

#[test]
fn map_insert_get_and_duplicate_key_updates_in_place() {
    let mut m: LinkedHashMap<u64> = LinkedHashMap::new();
    assert_eq!(m.len(), 0);
    assert_eq!(m.get(7), None);
    m.insert(7, 70);
    m.insert(8, 80);
    m.insert(7, 71);
    assert_eq!(m.len(), 2);
    assert_eq!(m.get(7), Some(&71));
    assert_eq!(m.get(8), Some(&80));
    let keys: Vec<u64> = m.iter_nodes().iter(&m).iter().map(|e| e.0).collect();
    assert_eq!(keys, vec![7, 8]);
    if let Some(v) = m.get_mut(8) {
        *v = 88;
    }
    assert_eq!(m.get(8), Some(&88));
    assert_eq!(m.find_node(8), Some(1));
    assert_eq!(m.find_node(9), None);
}

#[test]
fn empty_map_cursor_yields_nothing() {
    let m: LinkedHashMap<u64> = LinkedHashMap::new();
    let mut it = m.iter_nodes();
    assert_eq!(it.size_hint(), (0, Some(0)));
    assert_eq!(it.next(&m), None);
    assert_eq!(it.next_back(&m), None);
    assert_eq!(it.iter(&m).len(), 0);
}

#[test]
fn accessor_excludes_target_and_answers_others() {
    let mut m = abc_map();
    let b = 2u64;
    let mut acc = LinkedHashMapEntryAndRes::get(&mut m, &b);
    assert_eq!(*acc.value(), 200);
    assert_eq!(acc.view().get(1), Some(&100));
    assert_eq!(acc.view().get(3), Some(&300));
    assert_eq!(acc.view().get(2), None);
    *acc.value_mut() = 222;
    acc.finish();
    assert_eq!(m.get(2), Some(&222));
    assert_eq!(m.get(1), Some(&100));
    assert_eq!(m.get(3), Some(&300));
    let keys: Vec<u64> = m.iter_nodes().iter(&m).iter().map(|e| e.0).collect();
    assert_eq!(keys, vec![1, 2, 3]);
}

#[test]
fn accessor_view_can_mutate_other_entries() {
    let mut m = abc_map();
    let mut acc = LinkedHashMapEntryAndRes::get(&mut m, &1);
    if let Some(v) = acc.view_mut().get_mut(3) {
        *v = 333;
    }
    assert_eq!(acc.view_mut().get_mut(1), None);
    acc.finish();
    assert_eq!(m.get(3), Some(&333));
    assert_eq!(m.get(1), Some(&100));
}

#[test]
fn accessor_absent_key_fails_deterministically() {
    let mut m = abc_map();
    let z = 26u64;
    for _ in 0..3 {
        assert!(LinkedHashMapEntryAndRes::get_checked(&mut m, &z).is_none());
    }
    let acc = LinkedHashMapEntryAndRes::get_checked(&mut m, &2);
    assert!(acc.is_some());
    acc.unwrap().finish();
    assert_eq!(m.len(), 3);
}

#[test]
fn view_iter_omits_exactly_the_excluded_entry() {
    let mut m = abc_map();
    let acc = LinkedHashMapEntryAndRes::get(&mut m, &2);
    let listed = acc.view().iter();
    let keys: Vec<u64> = listed.iter().map(|e| e.0).collect();
    let vals: Vec<u64> = listed.iter().map(|e| *e.1).collect();
    assert_eq!(keys, vec![1, 3]);
    assert_eq!(vals, vec![100, 300]);
    acc.finish();
}

fn mark_visit(
    arg: (u64, (u64, LinkedHashMapExceptView<u64>)),
) -> (u64, LinkedHashMapExceptView<u64>) {
    let (k, (_v, view)) = arg;
    assert!(view.get(k).is_none());
    let mut marked = 0u64;
    for e in view.iter() {
        if *e.1 >= 10 && *e.1 < 20 {
            marked += 1;
        }
    }
    (10 + marked, view)
}

#[test]
fn for_each_forward_visits_a_b_c() {
    let mut m = abc_map();
    LinkedHashMapIterExt::new(&mut m).for_each(mark_visit);
    assert_eq!(m.get(1), Some(&10));
    assert_eq!(m.get(2), Some(&11));
    assert_eq!(m.get(3), Some(&12));
}

#[test]
fn for_each_reversed_visits_c_b_a() {
    let mut m = abc_map();
    LinkedHashMapIterExt::new(&mut m).rev().for_each(mark_visit);
    assert_eq!(m.get(3), Some(&10));
    assert_eq!(m.get(2), Some(&11));
    assert_eq!(m.get(1), Some(&12));
}

#[test]
fn for_each_callback_sees_other_entries_current_values() {
    let mut m = abc_map();
    let f = |arg: (u64, (u64, LinkedHashMapExceptView<u64>))| -> (u64, LinkedHashMapExceptView<u64>) {
        let (k, (v, mut view)) = arg;
        assert!(view.get(k).is_none());
        if k == 1 {
            assert_eq!(view.get(2), Some(&200));
            assert_eq!(view.get(3), Some(&300));
            if let Some(r) = view.get_mut(3) {
                *r = 301;
            }
        } else if k == 2 {
            assert_eq!(view.get(1), Some(&101));
            assert_eq!(view.get(3), Some(&301));
        } else {
            assert_eq!(view.get(1), Some(&101));
            assert_eq!(view.get(2), Some(&201));
        }
        (v + 1, view)
    };
    LinkedHashMapIterExt::new(&mut m).for_each(f);
    assert_eq!(m.get(1), Some(&101));
    assert_eq!(m.get(2), Some(&201));
    assert_eq!(m.get(3), Some(&302));
}

#[test]
fn double_rev_is_forward_again() {
    let mut m = abc_map();
    LinkedHashMapIterExt::new(&mut m).rev().rev().for_each(mark_visit);
    assert_eq!(m.get(1), Some(&10));
    assert_eq!(m.get(2), Some(&11));
    assert_eq!(m.get(3), Some(&12));
}

#[test]
fn view_get_mut_excluded_is_none_and_others_update() {
    let mut m = abc_map();
    let mut acc = LinkedHashMapEntryAndRes::get(&mut m, &3);
    let view = acc.view_mut();
    assert!(view.get_mut(3).is_none());
    if let Some(r) = view.get_mut(1) {
        assert_eq!(*r, 100);
        *r = 111;
    }
    assert_eq!(view.get(1), Some(&111));
    acc.finish();
    assert_eq!(m.get(1), Some(&111));
    assert_eq!(m.get(3), Some(&300));
}

#[test]
fn cursor_struct_is_plain_data() {
    let m = abc_map();
    let it = m.iter_nodes();
    let copy: IterNodes = it;
    assert_eq!(copy.size_hint(), it.size_hint());
}

#[test]
fn single_entry_map_view_is_empty() {
    let mut m: LinkedHashMap<u64> = LinkedHashMap::new();
    m.insert(5, 50);
    let acc = LinkedHashMapEntryAndRes::get(&mut m, &5);
    assert!(acc.view().iter().is_empty());
    assert_eq!(acc.view().get(5), None);
    acc.finish();
    assert_eq!(m.get(5), Some(&50));
}

#[test]
fn for_each_on_empty_map_never_calls_back() {
    let mut m: LinkedHashMap<u64> = LinkedHashMap::new();
    let f = |_arg: (u64, (u64, LinkedHashMapExceptView<u64>))| -> (
        u64,
        LinkedHashMapExceptView<u64>,
    ) { panic!("the callback must not run on an empty map") };
    LinkedHashMapIterExt::new(&mut m).for_each(f);
    assert_eq!(m.len(), 0);
}
